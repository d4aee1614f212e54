use vstd::prelude::*;

use crate::text::{append_chars, chars_of, occurs_at, starts_with, string_of};

verus! {

/// A topic created for every new user; `{username}` in its texts stands for the user name.
pub struct DefaultTopicTemplate {
    pub topic: String,
    pub description: String,
}

/// An ACL rule created for every new user; `{username}` in its pattern stands for the user name.
pub struct DefaultAclTemplate {
    pub topic_pattern: String,
    pub can_subscribe: bool,
    pub can_publish: bool,
}

/// The topics and rules that a new user gets.
pub struct UserDefaultsSettings {
    pub default_topics: Vec<DefaultTopicTemplate>,
    pub default_acls: Vec<DefaultAclTemplate>,
}

impl Default for UserDefaultsSettings {
    fn default() -> (d: Self)
        ensures
            d.default_topics@.len() == 0,
            d.default_acls@.len() == 0,
    {
        UserDefaultsSettings { default_topics: Vec::new(), default_acls: Vec::new() }
    }
}

/// `{username}`, the placeholder of the templates.
pub open spec fn placeholder() -> Seq<char> {
    seq!['{', 'u', 's', 'e', 'r', 'n', 'a', 'm', 'e', '}']
}

/// The template with every `{username}` replaced by the user name, left to
/// right and without overlaps (as `str::replace` does).
pub open spec fn spec_render(template: Seq<char>, username: Seq<char>) -> Seq<char>
    decreases template.len(),
{
    if template.len() == 0 {
        Seq::empty()
    } else if starts_with(template, placeholder()) {
        username + spec_render(template.skip(10), username)
    } else {
        seq![template[0]] + spec_render(template.skip(1), username)
    }
}

/// Replaces every `{username}` of the template by the user name.
pub fn render_template(template: &str, username: &str) -> (s: String)
    ensures
        s@ == spec_render(template@, username@),
{
    let t = chars_of(template);
    let u = chars_of(username);
    let pat: Vec<char> = vec!['{', 'u', 's', 'e', 'r', 'n', 'a', 'm', 'e', '}'];
    assert(pat@ =~= placeholder());
    let mut out: Vec<char> = Vec::new();
    let mut i: usize = 0;
    assert(t@.skip(0) =~= t@);
    while i < t.len()
        invariant
            i <= t.len(),
            pat@ == placeholder(),
            spec_render(t@, u@) == out@ + spec_render(t@.skip(i as int), u@),
        decreases t.len() - i,
    {
        let ghost rest = t@.skip(i as int);
        if occurs_at(&t, i, &pat) {
            assert(rest.skip(10) =~= t@.skip(i + 10));
            let ghost before = out@;
            append_chars(&mut out, &u);
            assert(out@ + spec_render(t@.skip(i + 10), u@) =~= before + (u@ + spec_render(t@.skip(i + 10), u@)));
            i = i + 10;
        } else {
            assert(rest.skip(1) =~= t@.skip(i + 1));
            assert(rest[0] == t@[i as int]);
            let ghost before = out@;
            out.push(t[i]);
            assert(out@ + spec_render(t@.skip(i + 1), u@) =~= before + (seq![t@[i as int]] + spec_render(t@.skip(i + 1), u@)));
            i = i + 1;
        }
    }
    assert(t@.skip(i as int).len() == 0);
    assert(out@ + Seq::<char>::empty() =~= out@);
    string_of(&out)
}

/// The topic template with both texts rendered for `username`.
pub open spec fn rendered_topic(t: DefaultTopicTemplate, username: Seq<char>, r: DefaultTopicTemplate) -> bool {
    &&& r.topic@ == spec_render(t.topic@, username)
    &&& r.description@ == spec_render(t.description@, username)
}

/// The ACL template with its pattern rendered for `username` and its flags kept.
pub open spec fn rendered_acl(a: DefaultAclTemplate, username: Seq<char>, r: DefaultAclTemplate) -> bool {
    &&& r.topic_pattern@ == spec_render(a.topic_pattern@, username)
    &&& r.can_subscribe == a.can_subscribe
    &&& r.can_publish == a.can_publish
}

/// The topics and rules to create for a new user: each template rendered
/// for the user name, in the templates' order. The topics are then stored
/// with the user as owner and the rules under the user's name.
pub fn render_user_defaults(defaults: &UserDefaultsSettings, username: &str) -> (r: UserDefaultsSettings)
    ensures
        r.default_topics@.len() == defaults.default_topics@.len(),
        forall|i: int| 0 <= i < r.default_topics@.len()
            ==> rendered_topic(defaults.default_topics@[i], username@, #[trigger] r.default_topics@[i]),
        r.default_acls@.len() == defaults.default_acls@.len(),
        forall|i: int| 0 <= i < r.default_acls@.len()
            ==> rendered_acl(defaults.default_acls@[i], username@, #[trigger] r.default_acls@[i]),
{
    let mut topics: Vec<DefaultTopicTemplate> = Vec::new();
    let mut i: usize = 0;
    while i < defaults.default_topics.len()
        invariant
            i <= defaults.default_topics@.len(),
            topics@.len() == i,
            forall|k: int| 0 <= k < i
                ==> rendered_topic(defaults.default_topics@[k], username@, #[trigger] topics@[k]),
        decreases defaults.default_topics@.len() - i,
    {
        let t = &defaults.default_topics[i];
        let topic = render_template(t.topic.as_str(), username);
        let description = render_template(t.description.as_str(), username);
        topics.push(DefaultTopicTemplate { topic, description });
        i = i + 1;
    }
    let mut acls: Vec<DefaultAclTemplate> = Vec::new();
    let mut j: usize = 0;
    while j < defaults.default_acls.len()
        invariant
            j <= defaults.default_acls@.len(),
            acls@.len() == j,
            forall|k: int| 0 <= k < j
                ==> rendered_acl(defaults.default_acls@[k], username@, #[trigger] acls@[k]),
        decreases defaults.default_acls@.len() - j,
    {
        let a = &defaults.default_acls[j];
        let topic_pattern = render_template(a.topic_pattern.as_str(), username);
        acls.push(DefaultAclTemplate { topic_pattern, can_subscribe: a.can_subscribe, can_publish: a.can_publish });
        j = j + 1;
    }
    UserDefaultsSettings { default_topics: topics, default_acls: acls }
}

/// A template without any `{username}` renders to itself, whatever the user name.
pub proof fn lemma_render_without_placeholder(template: Seq<char>, username: Seq<char>)
    requires
        forall|i: int| 0 <= i <= template.len() ==> !starts_with(#[trigger] template.skip(i), placeholder()),
    ensures
        spec_render(template, username) == template,
    decreases template.len(),
{
    if template.len() > 0 {
        assert(template.skip(0) =~= template);
        let rest = template.skip(1);
        assert forall|i: int| 0 <= i <= rest.len() implies !starts_with(#[trigger] rest.skip(i), placeholder()) by {
            assert(rest.skip(i) =~= template.skip(i + 1));
        }
        lemma_render_without_placeholder(rest, username);
        assert(seq![template[0]] + rest =~= template);
    }
}

/// Each `{username}` is replaced by the user name: a template made of the
/// placeholder alone renders to the user name.
pub proof fn lemma_render_placeholder_alone(username: Seq<char>)
    ensures
        spec_render(placeholder(), username) == username,
{
    assert(placeholder().take(10) =~= placeholder());
    assert(placeholder().skip(10) =~= Seq::<char>::empty());
    assert(starts_with(placeholder(), placeholder()));
    assert(spec_render(Seq::<char>::empty(), username) == Seq::<char>::empty());
    assert(spec_render(placeholder(), username) == username + spec_render(Seq::<char>::empty(), username));
    assert(username + Seq::<char>::empty() =~= username);
}

} // verus!
