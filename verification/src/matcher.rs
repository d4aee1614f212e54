use vstd::prelude::*;

use crate::text::{chars_equal, split_on, chars_of, ends_with, prefix_of, starts_with, trim_end_char, trim_end_len};

verus! {

/// Whether a subscription filter is covered by an ACL read pattern
/// (Mosquitto style): the pattern equals the filter, or the pattern ends in
/// `/#` and the filter is the part before it or lies below it, or the pattern
/// ends in another `#` and the filter starts with what precedes that `#`.
pub open spec fn spec_subscribe_allowed(pattern: Seq<char>, filter: Seq<char>) -> bool {
    if pattern == filter {
        true
    } else if ends_with(pattern, seq!['/', '#']) {
        let prefix = pattern.take(pattern.len() - 2);
        starts_with(filter, prefix.push('/')) || filter == prefix
    } else if ends_with(pattern, seq!['#']) {
        starts_with(filter, pattern.drop_last())
    } else {
        false
    }
}

/// Whether a topic or filter is covered by a registered topic entry: the
/// entry equals it, or the entry ends in `#` and the target starts with the
/// entry stripped of all its trailing `#`.
pub open spec fn spec_registered_covers(registered: Seq<char>, target: Seq<char>) -> bool {
    if registered == target {
        true
    } else if ends_with(registered, seq!['#']) {
        starts_with(target, trim_end_char(registered, '#'))
    } else {
        false
    }
}

/// A topic that `rumqttd::protocol::matches` can take: empty, or starting
/// with a one-byte (ASCII) character; it slices off the first byte of the
/// topic and panics when that byte does not end a character.
pub open spec fn matchable_topic(topic: Seq<char>) -> bool {
    topic.len() == 0 || topic[0] <= '\u{7f}'
}

/// Whether the `/`-separated levels of a topic match those of a filter:
/// `#` matches all remaining levels, `+` matches one level, any other
/// filter level must equal the topic level, a topic level `#` matches
/// nothing, and both must run out together.
pub open spec fn levels_match(topic_levels: Seq<Seq<char>>, filter_levels: Seq<Seq<char>>) -> bool
    decreases filter_levels.len(),
{
    if filter_levels.len() == 0 {
        topic_levels.len() == 0
    } else if filter_levels[0] == seq!['#'] {
        true
    } else if topic_levels.len() == 0 || topic_levels[0] == seq!['#'] {
        false
    } else if filter_levels[0] == seq!['+'] || filter_levels[0] == topic_levels[0] {
        levels_match(topic_levels.drop_first(), filter_levels.drop_first())
    } else {
        false
    }
}

/// MQTT topic-against-filter matching: a topic starting with `$` matches
/// no filter; otherwise the levels must match.
pub open spec fn spec_topic_matches(topic: Seq<char>, filter: Seq<char>) -> bool {
    !(topic.len() > 0 && topic[0] == '$') && levels_match(split_on(topic, '/'), split_on(filter, '/'))
}

/// Calls `rumqttd::protocol::matches(topic, filter)`. Claimed, as its source
/// reads: a topic whose first character is `$` never matches; otherwise the
/// filter's levels are walked against the topic's levels as
/// `spec_topic_matches` states. It slices off the first byte of the topic and
/// panics when that byte does not end a character, so such topics are left out.
#[verifier::external_body]
fn mqtt_topic_matches(topic: &str, filter: &str) -> (r: bool)
    requires
        matchable_topic(topic@),
    ensures
        r == spec_topic_matches(topic@, filter@),
{
    rumqttd::protocol::matches(topic, filter)
}

/// Decides whether an ACL pattern lets a client subscribe to `sub_filter`.
pub fn subscribe_allowed(acl_pattern: &str, sub_filter: &str) -> (r: bool)
    ensures
        r == spec_subscribe_allowed(acl_pattern@, sub_filter@),
{
    let p = chars_of(acl_pattern);
    let f = chars_of(sub_filter);
    if chars_equal(&p, &f) {
        return true;
    }
    let n = p.len();
    if n >= 2 && p[n - 2] == '/' && p[n - 1] == '#' {
        assert(p@.skip(n - 2) =~= seq!['/', '#']);
        let k = n - 2;
        let below = f.len() > k && prefix_of(&p, k, &f) && f[k] == '/';
        proof {
            let prefix = p@.take(k as int);
            if below {
                assert(f@.take(k + 1) =~= prefix.push('/'));
            }
            if starts_with(f@, prefix.push('/')) {
                assert(f@.take(k + 1) == prefix.push('/'));
                assert(f@.take(k as int) =~= prefix.push('/').take(k as int));
                assert(prefix.push('/').take(k as int) =~= prefix);
                assert(f@[k as int] == f@.take(k + 1)[k as int]);
                assert(below);
            }
        }
        let exact = f.len() == k && prefix_of(&p, k, &f);
        proof {
            if f@ == p@.take(k as int) {
                assert(f@.take(k as int) =~= f@);
            }
            if exact {
                assert(f@.take(k as int) =~= f@);
            }
        }
        return below || exact;
    }
    assert(!ends_with(p@, seq!['/', '#'])) by {
        if ends_with(p@, seq!['/', '#']) {
            assert(p@.skip(n - 2)[0] == p@[n - 2]);
            assert(p@.skip(n - 2)[1] == p@[n - 1]);
        }
    }
    if n >= 1 && p[n - 1] == '#' {
        assert(p@.skip(n - 1) =~= seq!['#']);
        assert(p@.drop_last() =~= p@.take(n - 1));
        return prefix_of(&p, n - 1, &f);
    }
    assert(!ends_with(p@, seq!['#'])) by {
        if ends_with(p@, seq!['#']) {
            assert(p@.skip(n - 1)[0] == p@[n - 1]);
        }
    }
    false
}

/// Whether an ACL pattern lets a client publish to a topic: the topic must
/// be one that MQTT matching takes (see `matchable_topic`) and match the
/// pattern as a filter.
pub open spec fn spec_publish_allowed(pattern: Seq<char>, topic: Seq<char>) -> bool {
    matchable_topic(topic) && spec_topic_matches(topic, pattern)
}

/// Whether the first character of a string is ASCII (or there is none).
fn starts_ascii(s: &str) -> (r: bool)
    ensures
        r == matchable_topic(s@),
{
    let v = chars_of(s);
    v.len() == 0 || v[0] <= '\u{7f}'
}

/// Decides whether an ACL pattern lets a client publish to `topic`; a topic
/// that starts with a non-ASCII character is refused.
pub fn publish_allowed(acl_pattern: &str, topic: &str) -> (r: bool)
    ensures
        r == spec_publish_allowed(acl_pattern@, topic@),
{
    if starts_ascii(topic) {
        mqtt_topic_matches(topic, acl_pattern)
    } else {
        false
    }
}

/// The filter `#` lets a client publish to every topic that does not start
/// with `$` and starts with an ASCII character (or is empty).
pub proof fn lemma_hash_allows_every_plain_topic(topic: Seq<char>)
    requires
        matchable_topic(topic),
        !(topic.len() > 0 && topic[0] == '$'),
    ensures
        spec_publish_allowed(seq!['#'], topic),
{
    let f = seq!['#'];
    let e = Seq::<char>::empty();
    assert(f.drop_last() =~= e);
    assert(split_on(e, '/') == seq![e]);
    assert(f.last() == '#');
    assert(split_on(f, '/') == seq![e].update(0, e.push('#')));
    assert(seq![e].update(0, e.push('#')) =~= seq![seq!['#']]);
    assert(e.push('#') =~= seq!['#']);
}

/// Decides whether a registered topic entry covers a topic or filter.
pub fn registered_covers(registered: &str, target: &str) -> (r: bool)
    ensures
        r == spec_registered_covers(registered@, target@),
{
    let reg = chars_of(registered);
    let t = chars_of(target);
    if chars_equal(&reg, &t) {
        return true;
    }
    let n = reg.len();
    if n >= 1 && reg[n - 1] == '#' {
        assert(reg@.skip(n - 1) =~= seq!['#']);
        let k = trim_end_len(&reg, '#');
        return prefix_of(&reg, k, &t);
    }
    assert(!ends_with(reg@, seq!['#'])) by {
        if ends_with(reg@, seq!['#']) {
            assert(reg@.skip(n - 1)[0] == reg@[n - 1]);
        }
    }
    false
}

/// A pattern always covers itself, for subscriptions and as a registered topic.
pub proof fn lemma_pattern_covers_itself(p: Seq<char>)
    ensures
        spec_subscribe_allowed(p, p),
        spec_registered_covers(p, p),
{
}

/// A pattern `<prefix>/#` lets a client subscribe to `<prefix>` itself and to
/// every filter below it, `<prefix>/<rest>`.
pub proof fn lemma_slash_hash_covers_subtree(prefix: Seq<char>, rest: Seq<char>)
    ensures
        spec_subscribe_allowed(prefix + seq!['/', '#'], prefix),
        spec_subscribe_allowed(prefix + seq!['/', '#'], prefix + seq!['/'] + rest),
{
    let p = prefix + seq!['/', '#'];
    assert(p.skip(p.len() - 2) =~= seq!['/', '#']);
    assert(p.take(p.len() - 2) =~= prefix);
    let f = prefix + seq!['/'] + rest;
    assert(f.take(prefix.len() + 1 as int) =~= prefix.push('/'));
}

/// A registered entry ending in `#` covers every target that starts with the
/// entry stripped of its trailing `#`.
pub proof fn lemma_registered_hash_covers_prefix(registered: Seq<char>, rest: Seq<char>)
    requires
        registered.len() > 0,
        registered.last() == '#',
    ensures
        spec_registered_covers(registered, trim_end_char(registered, '#') + rest),
{
    lemma_trim_end_shorter(registered, '#');
    let t = trim_end_char(registered, '#');
    assert(registered.skip(registered.len() - 1) =~= seq!['#']);
    assert((t + rest).take(t.len() as int) =~= t);
}

/// A read pattern that does not end in `#` lets a client subscribe to that
/// exact filter and to nothing else.
pub proof fn lemma_subscribe_plain_pattern(pattern: Seq<char>, filter: Seq<char>)
    requires
        pattern.len() == 0 || pattern.last() != '#',
    ensures
        spec_subscribe_allowed(pattern, filter) <==> filter == pattern,
{
    if pattern.len() >= 1 {
        assert(pattern.skip(pattern.len() - 1)[0] == pattern.last());
        if pattern.len() >= 2 {
            assert(pattern.skip(pattern.len() - 2)[1] == pattern.last());
        }
    }
}

/// A read pattern `<prefix>/#` lets a client subscribe to `<prefix>` itself
/// and to the filters that start with `<prefix>/`, and to nothing else (a
/// wider filter such as an ancestor's `#` is refused).
pub proof fn lemma_subscribe_subtree_pattern(prefix: Seq<char>, filter: Seq<char>)
    ensures
        spec_subscribe_allowed(prefix + seq!['/', '#'], filter) <==> (filter == prefix || (prefix.len() < filter.len()
            && filter.take(prefix.len() + 1int) == prefix.push('/'))),
{
    let p = prefix + seq!['/', '#'];
    assert(p.skip(p.len() - 2) =~= seq!['/', '#']);
    assert(p.take(p.len() - 2) =~= prefix);
    if filter == p {
        assert(filter.take(prefix.len() + 1int) =~= prefix.push('/'));
    }
}

/// A read pattern `<base>#`, where `<base>` does not end in `/`, lets a
/// client subscribe exactly to the filters that start with `<base>`.
pub proof fn lemma_subscribe_prefix_pattern(base: Seq<char>, filter: Seq<char>)
    requires
        base.len() == 0 || base.last() != '/',
    ensures
        spec_subscribe_allowed(base.push('#'), filter) <==> (base.len() <= filter.len()
            && filter.take(base.len() as int) == base),
{
    let p = base.push('#');
    assert(p.skip(p.len() - 1) =~= seq!['#']);
    assert(p.drop_last() =~= base);
    if p.len() >= 2 {
        assert(p.skip(p.len() - 2)[0] == base.last());
    }
    if filter == p {
        assert(filter.take(base.len() as int) =~= base);
    }
}

/// A registered topic that does not end in `#` covers that exact topic or
/// filter and nothing else (not the topics below it).
pub proof fn lemma_registered_plain_entry(registered: Seq<char>, target: Seq<char>)
    requires
        registered.len() == 0 || registered.last() != '#',
    ensures
        spec_registered_covers(registered, target) <==> target == registered,
{
    if registered.len() >= 1 {
        assert(registered.skip(registered.len() - 1)[0] == registered.last());
    }
}

/// `n` characters `#`.
pub open spec fn hashes(n: nat) -> Seq<char> {
    Seq::new(n, |i: int| '#')
}

/// A registered topic `<base>` followed by one or more `#`, where `<base>`
/// does not end in `#`, covers exactly the topics and filters that start
/// with `<base>`.
pub proof fn lemma_registered_hash_entry(base: Seq<char>, n: nat, target: Seq<char>)
    requires
        base.len() == 0 || base.last() != '#',
        n >= 1,
    ensures
        spec_registered_covers(base + hashes(n), target) <==> (base.len() <= target.len()
            && target.take(base.len() as int) == base),
{
    let r = base + hashes(n);
    assert(r.skip(r.len() - 1) =~= seq!['#']);
    lemma_trim_hashes(base, n);
    if target == r {
        assert(target.take(base.len() as int) =~= base);
    }
}

/// Removing the trailing `#` of `<base>` followed by `#`s leaves `<base>`.
proof fn lemma_trim_hashes(base: Seq<char>, n: nat)
    requires
        base.len() == 0 || base.last() != '#',
    ensures
        trim_end_char(base + hashes(n), '#') == base,
    decreases n,
{
    if n == 0 {
        assert(base + hashes(0) =~= base);
    } else {
        assert((base + hashes(n)).drop_last() =~= base + hashes((n - 1) as nat));
        lemma_trim_hashes(base, (n - 1) as nat);
    }
}

/// The levels of a topic match themselves as a filter.
proof fn lemma_levels_match_self(levels: Seq<Seq<char>>)
    ensures
        levels_match(levels, levels),
    decreases levels.len(),
{
    if levels.len() > 0 {
        lemma_levels_match_self(levels.drop_first());
    }
}

/// A topic that does not start with `$` and starts with an ASCII character
/// may be published on under the identical pattern; a topic starting with
/// `$` may be published on under no pattern.
pub proof fn lemma_publish_same_and_dollar(topic: Seq<char>, pattern: Seq<char>)
    ensures
        matchable_topic(topic) && !(topic.len() > 0 && topic[0] == '$') ==> spec_publish_allowed(topic, topic),
        topic.len() > 0 && topic[0] == '$' ==> !spec_publish_allowed(pattern, topic),
{
    lemma_levels_match_self(split_on(topic, '/'));
}

/// Against a filter without a `#` level, a topic's levels match exactly
/// when there are as many of them, none is `#`, and each equals the
/// filter's level at that place unless that level is `+` (which stands for
/// exactly one level).
pub proof fn lemma_levels_without_hash(topic_levels: Seq<Seq<char>>, filter_levels: Seq<Seq<char>>)
    requires
        forall|i: int| 0 <= i < filter_levels.len() ==> #[trigger] filter_levels[i] != seq!['#'],
    ensures
        levels_match(topic_levels, filter_levels) <==> (topic_levels.len() == filter_levels.len()
            && forall|i: int| 0 <= i < topic_levels.len() ==> #[trigger] topic_levels[i] != seq!['#']
                && (filter_levels[i] == seq!['+'] || filter_levels[i] == topic_levels[i])),
    decreases filter_levels.len(),
{
    if filter_levels.len() > 0 {
        let ts = topic_levels.drop_first();
        let fs = filter_levels.drop_first();
        assert forall|i: int| 0 <= i < fs.len() implies #[trigger] fs[i] != seq!['#'] by {
            assert(fs[i] == filter_levels[i + 1]);
        }
        lemma_levels_without_hash(ts, fs);
        assert(filter_levels[0] != seq!['#']);
        if topic_levels.len() > 0 {
            if topic_levels.len() == filter_levels.len() && forall|i: int| 0 <= i < topic_levels.len()
                ==> #[trigger] topic_levels[i] != seq!['#'] && (filter_levels[i] == seq!['+']
                || filter_levels[i] == topic_levels[i]) {
                assert(topic_levels[0] != seq!['#']);
                assert forall|i: int| 0 <= i < ts.len() implies #[trigger] ts[i] != seq!['#'] && (fs[i] == seq!['+']
                    || fs[i] == ts[i]) by {
                    assert(ts[i] == topic_levels[i + 1]);
                    assert(fs[i] == filter_levels[i + 1]);
                }
            }
            if levels_match(topic_levels, filter_levels) {
                assert forall|i: int| 0 <= i < topic_levels.len() implies #[trigger] topic_levels[i] != seq!['#']
                    && (filter_levels[i] == seq!['+'] || filter_levels[i] == topic_levels[i]) by {
                    if i > 0 {
                        assert(ts[i - 1] == topic_levels[i]);
                        assert(fs[i - 1] == filter_levels[i]);
                    }
                }
            }
        }
    }
}

/// Removing trailing characters never lengthens a sequence.
proof fn lemma_trim_end_shorter(s: Seq<char>, c: char)
    ensures
        trim_end_char(s, c).len() <= s.len(),
    decreases s.len(),
{
    if s.len() > 0 && s.last() == c {
        lemma_trim_end_shorter(s.drop_last(), c);
    }
}

} // verus!
