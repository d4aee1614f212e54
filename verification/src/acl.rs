use vstd::prelude::*;
use vstd::hash_map::StringHashMap;

use crate::matcher::{
    publish_allowed, registered_covers, spec_publish_allowed, spec_registered_covers, spec_subscribe_allowed,
    subscribe_allowed,
};
use crate::password::{bcrypt_verify_result, verify_password};
use crate::text::{chars_of, str_eq};

verus! {

/// Settings of the ACL service.
pub struct AclConfig {
    /// Whether a topic must be covered by a registered topic before any rule is consulted.
    pub enforce_registered_topics: bool,
    /// How often the cached users, topics and rules are reloaded, in seconds.
    pub cache_refresh_secs: u64,
}

/// The two operations that an ACL check decides on.
#[derive(Clone, Copy, Debug, PartialEq, Eq, Structural)]
pub enum AclOperation {
    Subscribe,
    Publish,
}

/// What the ACL logic reads of an MQTT user account.
pub struct MqttUser {
    pub username: String,
    pub password_hash: String,
    pub enabled: bool,
}

/// What the ACL logic reads of an ACL rule.
pub struct AclRule {
    pub username: String,
    pub topic_pattern: String,
    pub can_subscribe: bool,
    pub can_publish: bool,
}

/// A copy of an account, field by field.
pub fn clone_user(u: &MqttUser) -> (c: MqttUser)
    ensures
        c == *u,
{
    MqttUser { username: u.username.clone(), password_hash: u.password_hash.clone(), enabled: u.enabled }
}

/// A copy of a rule, field by field.
pub fn clone_rule(r: &AclRule) -> (c: AclRule)
    ensures
        c == *r,
{
    AclRule {
        username: r.username.clone(),
        topic_pattern: r.topic_pattern.clone(),
        can_subscribe: r.can_subscribe,
        can_publish: r.can_publish,
    }
}

/// The accounts keyed by user name; of two accounts with one name, the later one stays.
pub open spec fn users_by_name(users: Seq<MqttUser>) -> Map<Seq<char>, MqttUser>
    decreases users.len(),
{
    if users.len() == 0 {
        Map::empty()
    } else {
        users_by_name(users.drop_last()).insert(users.last().username@, users.last())
    }
}

/// The rules of one user, in their original order.
pub open spec fn rules_of(rules: Seq<AclRule>, user: Seq<char>) -> Seq<AclRule>
    decreases rules.len(),
{
    if rules.len() == 0 {
        Seq::empty()
    } else if rules.last().username@ == user {
        rules_of(rules.drop_last(), user).push(rules.last())
    } else {
        rules_of(rules.drop_last(), user)
    }
}

/// Some rule in the list belongs to `user`.
pub open spec fn has_rule_for(rules: Seq<AclRule>, user: Seq<char>) -> bool {
    exists|i: int| 0 <= i < rules.len() && (#[trigger] rules[i]).username@ == user
}

/// A registered topic entry lets the target through the registration check.
pub open spec fn registration_admits(registered: Seq<char>, target: Seq<char>, op: AclOperation) -> bool {
    match op {
        AclOperation::Subscribe => spec_registered_covers(registered, target)
            || spec_subscribe_allowed(registered, target),
        AclOperation::Publish => spec_registered_covers(registered, target),
    }
}

/// Some registered topic lets the target through.
pub open spec fn registered_topic_admits(topics: Seq<String>, target: Seq<char>, op: AclOperation) -> bool {
    exists|i: int| 0 <= i < topics.len() && registration_admits((#[trigger] topics[i])@, target, op)
}

/// A rule grants the operation on the target.
pub open spec fn rule_grants(rule: AclRule, target: Seq<char>, op: AclOperation) -> bool {
    match op {
        AclOperation::Subscribe => rule.can_subscribe && spec_subscribe_allowed(rule.topic_pattern@, target),
        AclOperation::Publish => rule.can_publish && spec_publish_allowed(rule.topic_pattern@, target),
    }
}

/// Some rule of the list grants the operation on the target.
pub open spec fn some_rule_grants(rules: Seq<AclRule>, target: Seq<char>, op: AclOperation) -> bool {
    exists|i: int| 0 <= i < rules.len() && rule_grants(#[trigger] rules[i], target, op)
}

/// The ACL decision over the cached state: a non-empty user name, the
/// registration check when it is enforced, and a granting rule of that user.
pub open spec fn spec_check_acl(
    enforce: bool,
    topics: Seq<String>,
    rules: Map<Seq<char>, Seq<AclRule>>,
    username: Seq<char>,
    target: Seq<char>,
    op: AclOperation,
) -> bool {
    &&& username.len() > 0
    &&& enforce ==> registered_topic_admits(topics, target, op)
    &&& rules.contains_key(username)
    &&& some_rule_grants(rules[username], target, op)
}

/// The ACL service: its settings and the cached users, registered topics and rules.
pub struct AclService {
    config: AclConfig,
    mqtt_users: StringHashMap<MqttUser>,
    registered_topics: Vec<String>,
    rules_by_user: StringHashMap<Vec<AclRule>>,
}

impl AclService {
    /// The settings.
    pub closed spec fn settings(&self) -> AclConfig {
        self.config
    }

    /// The cached accounts, keyed by user name.
    pub closed spec fn users(&self) -> Map<Seq<char>, MqttUser> {
        self.mqtt_users@
    }

    /// The cached registered topics.
    pub closed spec fn topics(&self) -> Seq<String> {
        self.registered_topics@
    }

    /// The cached rules, grouped by user name.
    pub closed spec fn rules(&self) -> Map<Seq<char>, Seq<AclRule>> {
        self.rules_by_user@.map_values(|v: Vec<AclRule>| v@)
    }

    /// A service with the given settings and nothing cached yet.
    pub fn new(config: AclConfig) -> (s: Self)
        ensures
            s.settings() == config,
            s.users() == Map::<Seq<char>, MqttUser>::empty(),
            s.topics() == Seq::<String>::empty(),
            s.rules() == Map::<Seq<char>, Seq<AclRule>>::empty(),
    {
        let s = AclService {
            config,
            mqtt_users: StringHashMap::new(),
            registered_topics: Vec::new(),
            rules_by_user: StringHashMap::new(),
        };
        assert(s.rules() =~= Map::<Seq<char>, Seq<AclRule>>::empty());
        s
    }

    /// The delay between two reloads of the cache, in seconds: the configured
    /// one, but never under five.
    pub fn refresh_interval_secs(&self) -> (secs: u64)
        ensures
            secs == if self.settings().cache_refresh_secs < 5 { 5 } else { self.settings().cache_refresh_secs },
    {
        if self.config.cache_refresh_secs < 5 {
            5
        } else {
            self.config.cache_refresh_secs
        }
    }

    /// Replaces the cache with freshly loaded accounts, registered topics and rules.
    pub fn reload(&mut self, users: Vec<MqttUser>, topics: Vec<String>, rules: Vec<AclRule>)
        ensures
            final(self).settings() == old(self).settings(),
            final(self).users() == users_by_name(users@),
            final(self).topics() == topics@,
            forall|u: Seq<char>| #[trigger] final(self).rules().contains_key(u) <==> has_rule_for(rules@, u),
            forall|u: Seq<char>| final(self).rules().contains_key(u)
                ==> #[trigger] final(self).rules()[u] == rules_of(rules@, u),
    {
        let mut mqtt_users: StringHashMap<MqttUser> = StringHashMap::new();
        let mut i: usize = 0;
        while i < users.len()
            invariant
                i <= users.len(),
                mqtt_users@ == users_by_name(users@.take(i as int)),
            decreases users.len() - i,
        {
            let u = clone_user(&users[i]);
            let name = u.username.clone();
            mqtt_users.insert(name, u);
            assert(users@.take(i + 1).drop_last() =~= users@.take(i as int));
            i = i + 1;
        }
        assert(users@.take(users.len() as int) =~= users@);

        let mut by_user: StringHashMap<Vec<AclRule>> = StringHashMap::new();
        let mut j: usize = 0;
        while j < rules.len()
            invariant
                j <= rules.len(),
                forall|u: Seq<char>| #[trigger] by_user@.contains_key(u) ==> by_user@[u]@ == rules_of(rules@, u),
                forall|u: Seq<char>| #[trigger] by_user@.contains_key(u) ==> has_rule_for(rules@, u),
                forall|k: int| 0 <= k < j ==> by_user@.contains_key((#[trigger] rules@[k]).username@),
            decreases rules.len() - j,
        {
            let name = &rules[j].username;
            if !by_user.contains_key(name.as_str()) {
                let group = rules_for_user(&rules, name.as_str());
                assert(has_rule_for(rules@, rules@[j as int].username@)) by {
                    assert(rules@[j as int].username@ == rules@[j as int].username@);
                }
                by_user.insert(name.clone(), group);
            }
            j = j + 1;
        }
        proof {
            assert forall|u: Seq<char>| has_rule_for(rules@, u) implies #[trigger] by_user@.contains_key(u) by {
                let k = choose|k: int| 0 <= k < rules@.len() && (#[trigger] rules@[k]).username@ == u;
                assert(by_user@.contains_key(rules@[k].username@));
            }
        }
        self.mqtt_users = mqtt_users;
        self.registered_topics = topics;
        self.rules_by_user = by_user;
    }

    /// Decides whether `username` may perform `op` on `topic_or_filter`.
    pub fn check_acl(&self, username: &str, topic_or_filter: &str, op: AclOperation) -> (r: bool)
        ensures
            r == spec_check_acl(
                self.settings().enforce_registered_topics,
                self.topics(),
                self.rules(),
                username@,
                topic_or_filter@,
                op,
            ),
    {
        let name = chars_of(username);
        if name.len() == 0 {
            return false;
        }
        if self.config.enforce_registered_topics {
            let mut allowed = false;
            let mut i: usize = 0;
            while i < self.registered_topics.len()
                invariant
                    i <= self.registered_topics@.len(),
                    allowed <==> exists|k: int| 0 <= k < i
                        && registration_admits((#[trigger] self.registered_topics@[k])@, topic_or_filter@, op),
                decreases self.registered_topics@.len() - i,
            {
                let registered = self.registered_topics[i].as_str();
                let admits = match op {
                    AclOperation::Subscribe => registered_covers(registered, topic_or_filter)
                        || subscribe_allowed(registered, topic_or_filter),
                    AclOperation::Publish => registered_covers(registered, topic_or_filter),
                };
                allowed = allowed || admits;
                i = i + 1;
            }
            if !allowed {
                return false;
            }
        }
        match self.rules_by_user.get(username) {
            None => {
                assert(!self.rules().contains_key(username@));
                false
            },
            Some(rules) => {
                let mut k: usize = 0;
                while k < rules.len()
                    invariant
                        k <= rules@.len(),
                        self.rules_by_user@.contains_key(username@),
                        *rules == self.rules_by_user@[username@],
                        username@.len() > 0,
                        self.config.enforce_registered_topics
                            ==> registered_topic_admits(self.topics(), topic_or_filter@, op),
                        forall|m: int| 0 <= m < k ==> !rule_grants(#[trigger] rules@[m], topic_or_filter@, op),
                    decreases rules@.len() - k,
                {
                    let rule = &rules[k];
                    let grants = match op {
                        AclOperation::Subscribe => rule.can_subscribe
                            && subscribe_allowed(rule.topic_pattern.as_str(), topic_or_filter),
                        AclOperation::Publish => rule.can_publish
                            && publish_allowed(rule.topic_pattern.as_str(), topic_or_filter),
                    };
                    if grants {
                        assert(self.rules().contains_key(username@));
                        assert(self.rules()[username@] == rules@);
                        assert(rule_grants(rules@[k as int], topic_or_filter@, op));
                        return true;
                    }
                    k = k + 1;
                }
                assert(self.rules()[username@] == rules@);
                false
            },
        }
    }

    /// Checks a password against the cached account of `username`. `None`
    /// when no enabled account of that name is cached: the caller then looks
    /// the account up in the database (see `verify_user_password`).
    pub fn cached_password_check(&self, username: &str, password: &str) -> (r: Option<bool>)
        ensures
            match r {
                Some(ok) => self.users().contains_key(username@) && self.users()[username@].enabled
                    && ok == account_accepts(self.users()[username@], password@),
                None => !(self.users().contains_key(username@) && self.users()[username@].enabled),
            },
    {
        match self.mqtt_users.get(username) {
            Some(user) => {
                if user.enabled {
                    Some(verify_password(password, user.password_hash.as_str()))
                } else {
                    None
                }
            },
            None => None,
        }
    }
}

/// The rules of `user`, copied in their original order.
fn rules_for_user(rules: &Vec<AclRule>, user: &str) -> (out: Vec<AclRule>)
    ensures
        out@ == rules_of(rules@, user@),
{
    let mut out: Vec<AclRule> = Vec::new();
    let mut i: usize = 0;
    while i < rules.len()
        invariant
            i <= rules.len(),
            out@ == rules_of(rules@.take(i as int), user@),
        decreases rules.len() - i,
    {
        assert(rules@.take(i + 1).drop_last() =~= rules@.take(i as int));
        if str_eq(rules[i].username.as_str(), user) {
            out.push(clone_rule(&rules[i]));
        }
        i = i + 1;
    }
    assert(rules@.take(rules.len() as int) =~= rules@);
    out
}

/// A rule is among the rules of `user` exactly when it is a loaded rule of that user.
proof fn lemma_rules_of_members(rules: Seq<AclRule>, user: Seq<char>)
    ensures
        forall|x: AclRule| rules_of(rules, user).contains(x)
            <==> exists|i: int| 0 <= i < rules.len() && rules[i] == x && x.username@ == user,
    decreases rules.len(),
{
    if rules.len() > 0 {
        let init = rules.drop_last();
        lemma_rules_of_members(init, user);
        assert forall|x: AclRule| rules_of(rules, user).contains(x)
            <==> exists|i: int| 0 <= i < rules.len() && rules[i] == x && x.username@ == user by {
            let last = rules.last();
            if last.username@ == user {
                assert(rules_of(rules, user) == rules_of(init, user).push(last));
            } else {
                assert(rules_of(rules, user) == rules_of(init, user));
            }
            if rules_of(rules, user).contains(x) {
                if last.username@ == user && x == last {
                    assert(rules[rules.len() - 1] == x);
                } else {
                    let k = choose|k: int| 0 <= k < rules_of(rules, user).len() && rules_of(rules, user)[k] == x;
                    if last.username@ == user {
                        assert(k < rules_of(init, user).len());
                        assert(rules_of(init, user)[k] == x);
                    }
                    assert(rules_of(init, user).contains(x));
                    let i = choose|i: int| 0 <= i < init.len() && init[i] == x && x.username@ == user;
                    assert(init[i] == rules[i]);
                }
            }
            if exists|i: int| 0 <= i < rules.len() && rules[i] == x && x.username@ == user {
                let i = choose|i: int| 0 <= i < rules.len() && rules[i] == x && x.username@ == user;
                if i == rules.len() - 1 {
                    assert(rules_of(rules, user)[rules_of(init, user).len() as int] == x);
                } else {
                    assert(init[i] == x);
                    assert(rules_of(init, user).contains(x));
                    let k = choose|k: int| 0 <= k < rules_of(init, user).len() && rules_of(init, user)[k] == x;
                    assert(rules_of(rules, user)[k] == x);
                }
            }
        }
    }
}

/// After a reload, an ACL check is granted exactly when the user name is not
/// empty, the target passes the registration check where that is enforced,
/// and one of the loaded rules of that user grants the operation on the target.
pub proof fn lemma_check_after_reload(
    s: AclService,
    rules: Seq<AclRule>,
    username: Seq<char>,
    target: Seq<char>,
    op: AclOperation,
)
    requires
        forall|u: Seq<char>| #[trigger] s.rules().contains_key(u) <==> has_rule_for(rules, u),
        forall|u: Seq<char>| s.rules().contains_key(u) ==> #[trigger] s.rules()[u] == rules_of(rules, u),
    ensures
        spec_check_acl(s.settings().enforce_registered_topics, s.topics(), s.rules(), username, target, op)
            <==> {
            &&& username.len() > 0
            &&& s.settings().enforce_registered_topics ==> registered_topic_admits(s.topics(), target, op)
            &&& exists|i: int| 0 <= i < rules.len() && (#[trigger] rules[i]).username@ == username
                && rule_grants(rules[i], target, op)
        },
{
    lemma_rules_of_members(rules, username);
    let grouped = rules_of(rules, username);
    if exists|i: int| 0 <= i < rules.len() && (#[trigger] rules[i]).username@ == username
        && rule_grants(rules[i], target, op) {
        let i = choose|i: int| 0 <= i < rules.len() && (#[trigger] rules[i]).username@ == username
            && rule_grants(rules[i], target, op);
        assert(has_rule_for(rules, username));
        assert(grouped.contains(rules[i]));
        let k = choose|k: int| 0 <= k < grouped.len() && grouped[k] == rules[i];
        assert(rule_grants(grouped[k], target, op));
    }
    if s.rules().contains_key(username) && some_rule_grants(s.rules()[username], target, op) {
        let k = choose|k: int| 0 <= k < grouped.len() && rule_grants(#[trigger] grouped[k], target, op);
        assert(grouped.contains(grouped[k]));
        let i = choose|i: int| 0 <= i < rules.len() && rules[i] == grouped[k] && grouped[k].username@ == username;
        assert(rule_grants(rules[i], target, op));
    }
}

/// After a reload, a subscription is allowed exactly when the user name is
/// not empty, the registration check passes (when enforced), and one of the
/// user's loaded rules both has its subscribe flag set and covers the
/// filter; a rule that only allows publishing never lets a user subscribe.
pub proof fn lemma_subscribe_needs_subscribe_rule(s: AclService, rules: Seq<AclRule>, username: Seq<char>, filter: Seq<char>)
    requires
        forall|u: Seq<char>| #[trigger] s.rules().contains_key(u) <==> has_rule_for(rules, u),
        forall|u: Seq<char>| s.rules().contains_key(u) ==> #[trigger] s.rules()[u] == rules_of(rules, u),
    ensures
        spec_check_acl(s.settings().enforce_registered_topics, s.topics(), s.rules(), username, filter, AclOperation::Subscribe)
            <==> {
            &&& username.len() > 0
            &&& s.settings().enforce_registered_topics ==> exists|k: int| 0 <= k < s.topics().len()
                && (spec_registered_covers((#[trigger] s.topics()[k])@, filter)
                || spec_subscribe_allowed(s.topics()[k]@, filter))
            &&& exists|i: int| 0 <= i < rules.len() && (#[trigger] rules[i]).username@ == username
                && rules[i].can_subscribe && spec_subscribe_allowed(rules[i].topic_pattern@, filter)
        },
{
    lemma_check_after_reload(s, rules, username, filter, AclOperation::Subscribe);
}

/// After a reload, publishing is allowed exactly when the user name is not
/// empty, the registration check passes (when enforced), and one of the
/// user's loaded rules both has its publish flag set and matches the topic;
/// a rule that only allows subscribing never lets a user publish.
pub proof fn lemma_publish_needs_publish_rule(s: AclService, rules: Seq<AclRule>, username: Seq<char>, topic: Seq<char>)
    requires
        forall|u: Seq<char>| #[trigger] s.rules().contains_key(u) <==> has_rule_for(rules, u),
        forall|u: Seq<char>| s.rules().contains_key(u) ==> #[trigger] s.rules()[u] == rules_of(rules, u),
    ensures
        spec_check_acl(s.settings().enforce_registered_topics, s.topics(), s.rules(), username, topic, AclOperation::Publish)
            <==> {
            &&& username.len() > 0
            &&& s.settings().enforce_registered_topics ==> exists|k: int| 0 <= k < s.topics().len()
                && spec_registered_covers((#[trigger] s.topics()[k])@, topic)
            &&& exists|i: int| 0 <= i < rules.len() && (#[trigger] rules[i]).username@ == username
                && rules[i].can_publish && spec_publish_allowed(rules[i].topic_pattern@, topic)
        },
{
    lemma_check_after_reload(s, rules, username, topic, AclOperation::Publish);
}

/// After a reload, the cached account of a user name is the last loaded
/// account of that name, and only names of loaded accounts are cached.
pub proof fn lemma_users_by_name(users: Seq<MqttUser>, name: Seq<char>)
    ensures
        users_by_name(users).contains_key(name)
            <==> exists|i: int| 0 <= i < users.len() && (#[trigger] users[i]).username@ == name,
        users_by_name(users).contains_key(name) ==> exists|i: int| {
            &&& 0 <= i < users.len()
            &&& (#[trigger] users[i]) == users_by_name(users)[name]
            &&& users[i].username@ == name
            &&& forall|j: int| i < j < users.len() ==> (#[trigger] users[j]).username@ != name
        },
    decreases users.len(),
{
    if users.len() > 0 {
        let init = users.drop_last();
        lemma_users_by_name(init, name);
        let last = users.last();
        assert(last == users[users.len() - 1]);
        if last.username@ == name {
            assert(users_by_name(users)[name] == last);
        } else {
            if exists|i: int| 0 <= i < users.len() && (#[trigger] users[i]).username@ == name {
                let i = choose|i: int| 0 <= i < users.len() && (#[trigger] users[i]).username@ == name;
                assert(i < users.len() - 1);
                assert(init[i] == users[i]);
            }
            if users_by_name(users).contains_key(name) {
                let i = choose|i: int| {
                    &&& 0 <= i < init.len()
                    &&& (#[trigger] init[i]) == users_by_name(init)[name]
                    &&& init[i].username@ == name
                    &&& forall|j: int| i < j < init.len() ==> (#[trigger] init[j]).username@ != name
                };
                assert(users[i] == init[i]);
                assert forall|j: int| i < j < users.len() implies (#[trigger] users[j]).username@ != name by {
                    if j < users.len() - 1 {
                        assert(users[j] == init[j]);
                    }
                }
            }
        }
    }
}

/// A password stored through `hash_mqtt_password` lets its enabled account
/// in, and a disabled account is never let in.
pub proof fn lemma_stored_password_accepted(u: MqttUser, password: Seq<char>)
    requires
        bcrypt_verify_result(password, u.password_hash@) == Some(true),
    ensures
        account_accepts(u, password) == u.enabled,
{
}

/// An account lets a client in with this password: it is enabled and its
/// stored hash accepts the password.
pub open spec fn account_accepts(u: MqttUser, password: Seq<char>) -> bool {
    u.enabled && bcrypt_verify_result(password, u.password_hash@) == Some(true)
}

/// Checks a password against an account read from the database: only an
/// enabled account whose hash accepts the password lets the client in.
pub fn verify_user_password(user: Option<&MqttUser>, password: &str) -> (ok: bool)
    ensures
        ok == match user {
            Some(u) => account_accepts(*u, password@),
            None => false,
        },
{
    match user {
        Some(u) => u.enabled && verify_password(password, u.password_hash.as_str()),
        None => false,
    }
}

} // verus!
