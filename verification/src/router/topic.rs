//! Topic names and topic filters: levels, wildcards, and matching.
use vstd::prelude::*;
use vstd::std_specs::iter::IteratorSpec;

verus! {

broadcast use vstd::string::group_string_axioms;

// ---------------------------------------------------------------------------
// Topic filter matching
// ---------------------------------------------------------------------------

/// The levels of a topic name or filter: the pieces between '/' characters,
/// as `str::split('/')` gives them (an empty string has one empty level).
pub open spec fn topic_levels(s: Seq<char>) -> Seq<Seq<char>>
    decreases s.len(),
{
    if s.len() == 0 {
        seq![Seq::empty()]
    } else {
        let prev = topic_levels(s.drop_last());
        if s.last() == '/' {
            prev.push(Seq::empty())
        } else {
            prev.update(prev.len() - 1, prev.last().push(s.last()))
        }
    }
}

/// Whether filter levels match topic levels: `#` as the last filter level
/// matches any remaining levels (none included), `+` matches exactly one
/// level, any other level must be equal.
pub open spec fn levels_match(filter: Seq<Seq<char>>, topic: Seq<Seq<char>>) -> bool
    decreases filter.len(),
{
    if filter.len() == 0 {
        topic.len() == 0
    } else if filter[0] == seq!['#'] {
        filter.len() == 1
    } else if topic.len() == 0 {
        false
    } else if filter[0] == seq!['+'] || filter[0] == topic[0] {
        levels_match(filter.drop_first(), topic.drop_first())
    } else {
        false
    }
}

/// Whether a topic filter matches a topic name.
pub open spec fn topic_matches_spec(filter: Seq<char>, topic: Seq<char>) -> bool {
    levels_match(topic_levels(filter), topic_levels(topic))
}

/// Joins levels back with '/' between them.
pub open spec fn join_levels(levels: Seq<Seq<char>>) -> Seq<char>
    decreases levels.len(),
{
    if levels.len() <= 1 {
        if levels.len() == 0 {
            Seq::empty()
        } else {
            levels[0]
        }
    } else {
        join_levels(levels.drop_last()) + seq!['/'] + levels.last()
    }
}

/// One more character either starts a new level ('/') or extends the last one.
pub proof fn lemma_levels_push(s: Seq<char>, c: char)
    ensures
        topic_levels(s.push(c)) == (if c == '/' {
            topic_levels(s).push(Seq::empty())
        } else {
            topic_levels(s).update(topic_levels(s).len() - 1, topic_levels(s).last().push(c))
        }),
{
    assert(s.push(c).drop_last() =~= s);
}

proof fn lemma_topic_levels_nonempty(s: Seq<char>)
    ensures
        topic_levels(s).len() >= 1,
    decreases s.len(),
{
    if s.len() > 0 {
        lemma_topic_levels_nonempty(s.drop_last());
    }
}

/// Splitting at '/' and joining back gives the name again.
pub proof fn lemma_join_topic_levels(s: Seq<char>)
    ensures
        join_levels(topic_levels(s)) == s,
    decreases s.len(),
{
    if s.len() == 0 {
        assert(topic_levels(s) =~= seq![Seq::<char>::empty()]);
    } else {
        let prev = topic_levels(s.drop_last());
        lemma_topic_levels_nonempty(s.drop_last());
        lemma_join_topic_levels(s.drop_last());
        if s.last() == '/' {
            assert(prev.push(Seq::empty()).drop_last() =~= prev);
            assert(s =~= s.drop_last() + seq!['/'] + Seq::<char>::empty());
        } else {
            let c = s.last();
            let cur = prev.update(prev.len() - 1, prev.last().push(c));
            if prev.len() == 1 {
                assert(s =~= prev[0].push(c));
            } else {
                assert(cur.drop_last() =~= prev.drop_last());
                assert(join_levels(prev) == join_levels(prev.drop_last()) + seq!['/'] + prev.last());
                assert(join_levels(cur) == join_levels(cur.drop_last()) + seq!['/'] + cur.last());
                assert(s =~= s.drop_last().push(c));
                assert(s =~= join_levels(prev.drop_last()) + seq!['/'] + prev.last().push(c));
            }
        }
    }
}

/// Every character of every level comes from the name, and none is '/'.
proof fn lemma_topic_levels_chars(s: Seq<char>)
    ensures
        forall|i: int, j: int|
            0 <= i < topic_levels(s).len() && 0 <= j < topic_levels(s)[i].len() ==> s.contains(
                #[trigger] topic_levels(s)[i][j],
            ) && topic_levels(s)[i][j] != '/',
    decreases s.len(),
{
    if s.len() > 0 {
        let t = s.drop_last();
        lemma_topic_levels_chars(t);
        lemma_topic_levels_nonempty(t);
        let prev = topic_levels(t);
        assert forall|i: int, j: int|
            0 <= i < topic_levels(s).len() && 0 <= j < topic_levels(s)[i].len() implies s.contains(
                #[trigger] topic_levels(s)[i][j],
            ) && topic_levels(s)[i][j] != '/' by {
            let x = topic_levels(s)[i][j];
            if i < prev.len() && j < prev[i].len() && topic_levels(s)[i][j] == prev[i][j] {
                let k = choose|k: int| 0 <= k < t.len() && t[k] == prev[i][j];
                assert(s[k] == x);
            } else {
                assert(x == s.last());
                assert(s[s.len() - 1] == x);
            }
        }
    }
}

/// Law: the filter `#` matches every topic.
pub proof fn lemma_hash_matches_every_topic(topic: Seq<char>)
    ensures
        topic_matches_spec(seq!['#'], topic),
{
    lemma_levels_push(Seq::empty(), '#');
    assert(Seq::<char>::empty().push('#') =~= seq!['#']);
    assert(topic_levels(seq!['#']) =~~= seq![seq!['#']]);
}

/// The levels of `a/b` are the levels of `a` followed by those of `b`.
pub proof fn lemma_levels_concat(a: Seq<char>, b: Seq<char>)
    ensures
        topic_levels(a + seq!['/'] + b) == topic_levels(a) + topic_levels(b),
    decreases b.len(),
{
    let la = topic_levels(a);
    if b.len() == 0 {
        assert(a + seq!['/'] + b =~= a.push('/'));
        lemma_levels_push(a, '/');
        assert(la.push(Seq::empty()) =~= la + seq![Seq::<char>::empty()]);
    } else {
        let b1 = b.drop_last();
        let c = b.last();
        lemma_levels_concat(a, b1);
        assert(a + seq!['/'] + b =~= (a + seq!['/'] + b1).push(c));
        assert(b =~= b1.push(c));
        lemma_levels_push(a + seq!['/'] + b1, c);
        lemma_levels_push(b1, c);
        lemma_topic_levels_nonempty(b1);
        let lb1 = topic_levels(b1);
        if c == '/' {
            assert((la + lb1).push(Seq::empty()) =~= la + lb1.push(Seq::empty()));
        } else {
            assert((la + lb1).last() == lb1.last());
            assert((la + lb1).update(la.len() + lb1.len() - 1, lb1.last().push(c)) =~= la + lb1.update(
                lb1.len() - 1,
                lb1.last().push(c),
            ));
        }
    }
}

/// Literal levels followed by `#` match those levels followed by any levels.
proof fn lemma_hash_levels_match(l: Seq<Seq<char>>, m: Seq<Seq<char>>)
    requires
        no_wildcard_levels(l),
    ensures
        levels_match(l.push(seq!['#']), l + m),
    decreases l.len(),
{
    if l.len() == 0 {
        assert(l.push(seq!['#']) =~= seq![seq!['#']]);
    } else {
        let f = l.push(seq!['#']);
        assert(f[0] == l[0]);
        assert((l + m)[0] == l[0]);
        assert(l[0] != seq!['#']);
        assert(f.drop_first() =~= l.drop_first().push(seq!['#']));
        assert((l + m).drop_first() =~= l.drop_first() + m);
        assert(no_wildcard_levels(l.drop_first())) by {
            assert forall|i: int| 0 <= i < l.drop_first().len() implies l.drop_first()[i] != seq!['#']
                && l.drop_first()[i] != seq!['+'] by {
                assert(l.drop_first()[i] == l[i + 1]);
            }
        }
        lemma_hash_levels_match(l.drop_first(), m);
    }
}

/// Law: a filter with no `#` level matches exactly the topics with as many
/// levels as the filter, each level equal to the filter's level or standing
/// under a `+`; so a `+` matches exactly one level, wherever it stands.
pub proof fn lemma_plain_filter_matches(f: Seq<Seq<char>>, t: Seq<Seq<char>>)
    requires
        forall|i: int| 0 <= i < f.len() ==> f[i] != seq!['#'],
    ensures
        levels_match(f, t) <==> (f.len() == t.len() && forall|i: int|
            0 <= i < f.len() ==> #[trigger] f[i] == seq!['+'] || f[i] == t[i]),
    decreases f.len(),
{
    if f.len() > 0 {
        assert(f[0] != seq!['#']);
        let f1 = f.drop_first();
        assert forall|i: int| 0 <= i < f1.len() implies f1[i] != seq!['#'] by {
            assert(f1[i] == f[i + 1]);
        }
        if t.len() > 0 {
            let t1 = t.drop_first();
            lemma_plain_filter_matches(f1, t1);
            if levels_match(f, t) {
                assert(levels_match(f1, t1));
                assert forall|i: int| 0 <= i < f.len() implies #[trigger] f[i] == seq!['+'] || f[i] == t[i] by {
                    if i > 0 {
                        assert(f1[i - 1] == seq!['+'] || f1[i - 1] == t1[i - 1]);
                    }
                }
            }
            if f.len() == t.len() && forall|i: int| 0 <= i < f.len() ==> #[trigger] f[i] == seq!['+'] || f[i] == t[i] {
                assert(f[0] == seq!['+'] || f[0] == t[0]);
                assert forall|i: int| 0 <= i < f1.len() implies #[trigger] f1[i] == seq!['+'] || f1[i] == t1[i] by {
                    assert(f[i + 1] == seq!['+'] || f[i + 1] == t[i + 1]);
                }
                assert(levels_match(f1, t1));
            }
        }
    }
}

/// Law: a filter ending in `#` matches a topic exactly when the filter
/// without that `#` matches the topic cut after some level, the parent level
/// itself included (`k` levels, from none to all of them); for a filter
/// whose other levels hold no `#` (they may hold `+`).
pub proof fn lemma_hash_suffix_matches(f: Seq<Seq<char>>, t: Seq<Seq<char>>)
    requires
        forall|i: int| 0 <= i < f.len() ==> f[i] != seq!['#'],
    ensures
        levels_match(f.push(seq!['#']), t) <==> exists|k: int|
            0 <= k <= t.len() && #[trigger] levels_match(f, t.take(k)),
    decreases f.len(),
{
    let g = f.push(seq!['#']);
    if f.len() == 0 {
        assert(g =~= seq![seq!['#']]);
        assert(t.take(0) =~= Seq::<Seq<char>>::empty());
        assert(levels_match(f, t.take(0)));
    } else {
        assert(g[0] == f[0]);
        assert(f[0] != seq!['#']);
        assert(g.drop_first() =~= f.drop_first().push(seq!['#']));
        let f1 = f.drop_first();
        assert forall|i: int| 0 <= i < f1.len() implies f1[i] != seq!['#'] by {
            assert(f1[i] == f[i + 1]);
        }
        if exists|k: int| 0 <= k <= t.len() && #[trigger] levels_match(f, t.take(k)) {
            let k = choose|k: int| 0 <= k <= t.len() && #[trigger] levels_match(f, t.take(k));
            assert(k > 0) by {
                if k == 0 {
                    assert(t.take(0).len() == 0);
                }
            }
            assert(t.take(k)[0] == t[0]);
            let t1 = t.drop_first();
            assert(t.take(k).drop_first() =~= t1.take(k - 1));
            lemma_hash_suffix_matches(f1, t1);
            assert(levels_match(f1, t1.take(k - 1)));
            assert(levels_match(g, t));
        }
        if levels_match(g, t) {
            assert(t.len() > 0);
            let t1 = t.drop_first();
            lemma_hash_suffix_matches(f1, t1);
            assert(levels_match(f1.push(seq!['#']), t1));
            let k1 = choose|k: int| 0 <= k <= t1.len() && #[trigger] levels_match(f1, t1.take(k));
            assert(t.take(k1 + 1).drop_first() =~= t1.take(k1));
            assert(t.take(k1 + 1)[0] == t[0]);
            assert(levels_match(f, t.take(k1 + 1)));
        }
    }
}

/// Law: a filter `p/#` matches its parent topic `p` and every topic below it
/// (`p/` followed by any levels), for a parent whose levels hold no wildcard.
pub proof fn lemma_hash_matches_subtree(parent: Seq<char>, rest: Seq<char>)
    requires
        no_wildcard_levels(topic_levels(parent)),
    ensures
        topic_matches_spec(parent + seq!['/', '#'], parent),
        topic_matches_spec(parent + seq!['/', '#'], parent + seq!['/'] + rest),
{
    let l = topic_levels(parent);
    assert(parent + seq!['/', '#'] =~= parent + seq!['/'] + seq!['#']);
    lemma_levels_concat(parent, seq!['#']);
    lemma_levels_push(Seq::empty(), '#');
    assert(Seq::<char>::empty().push('#') =~= seq!['#']);
    assert(topic_levels(seq!['#']) =~~= seq![seq!['#']]);
    assert(l + seq![seq!['#']] =~= l.push(seq!['#']));
    lemma_hash_levels_match(l, Seq::empty());
    assert(l + Seq::<Seq<char>>::empty() =~= l);
    lemma_levels_concat(parent, rest);
    lemma_hash_levels_match(l, topic_levels(rest));
}

/// A name without '/' is a single level.
proof fn lemma_single_level(s: Seq<char>)
    requires
        !s.contains('/'),
    ensures
        topic_levels(s) == seq![s],
    decreases s.len(),
{
    if s.len() == 0 {
        assert(s =~= Seq::<char>::empty());
        assert(topic_levels(s) =~~= seq![s]);
    } else {
        let t = s.drop_last();
        let c = s.last();
        assert(!t.contains('/')) by {
            if t.contains('/') {
                let k = choose|k: int| 0 <= k < t.len() && t[k] == '/';
                assert(s[k] == '/');
            }
        }
        lemma_single_level(t);
        assert(s[s.len() - 1] != '/');
        assert(s =~= t.push(c));
        lemma_levels_push(t, c);
        assert(seq![t].len() == 1 && seq![t].last() == t);
        assert(topic_levels(s) == seq![t].update(0, t.push(c)));
        assert(seq![t].update(0, t.push(c)) =~~= seq![s]);
    }
}

/// Law: the filter `+` matches exactly the topics of one level (those without '/').
pub proof fn lemma_plus_matches_single_level(topic: Seq<char>)
    ensures
        topic_matches_spec(seq!['+'], topic) <==> !topic.contains('/'),
{
    lemma_levels_push(Seq::empty(), '+');
    assert(Seq::<char>::empty().push('+') =~= seq!['+']);
    assert(topic_levels(seq!['+']) =~~= seq![seq!['+']]);
    assert(seq!['+'][0] != seq!['#'][0]);
    assert(seq!['+'] != seq!['#']);
    assert(seq![seq!['+']].drop_first() =~= Seq::<Seq<char>>::empty());
    lemma_topic_levels_nonempty(topic);
    reveal_with_fuel(levels_match, 2);
    if !topic.contains('/') {
        lemma_single_level(topic);
        assert(seq![topic].drop_first() =~= Seq::<Seq<char>>::empty());
    } else {
        let k = choose|k: int| 0 <= k < topic.len() && topic[k] == '/';
        assert(topic_levels(topic).len() >= 2) by {
            lemma_slash_makes_levels(topic, k);
        }
    }
}

/// A '/' anywhere makes at least two levels.
proof fn lemma_slash_makes_levels(s: Seq<char>, k: int)
    requires
        0 <= k < s.len(),
        s[k] == '/',
    ensures
        topic_levels(s).len() >= 2,
    decreases s.len(),
{
    let t = s.drop_last();
    lemma_topic_levels_nonempty(t);
    if k < s.len() - 1 {
        lemma_slash_makes_levels(t, k);
    }
}

/// Whether no level of a filter is a wildcard.
pub open spec fn no_wildcard_levels(levels: Seq<Seq<char>>) -> bool {
    forall|i: int| 0 <= i < levels.len() ==> levels[i] != seq!['#'] && levels[i] != seq!['+']
}

proof fn lemma_levels_match_literal(f: Seq<Seq<char>>, t: Seq<Seq<char>>)
    requires
        no_wildcard_levels(f),
    ensures
        levels_match(f, t) <==> f == t,
    decreases f.len(),
{
    if f.len() == 0 {
        if t.len() == 0 {
            assert(f =~= t);
        }
    } else {
        assert(f[0] != seq!['#'] && f[0] != seq!['+']);
        assert(no_wildcard_levels(f.drop_first())) by {
            assert forall|i: int| 0 <= i < f.drop_first().len() implies f.drop_first()[i] != seq!['#']
                && f.drop_first()[i] != seq!['+'] by {
                assert(f.drop_first()[i] == f[i + 1]);
            }
        }
        if t.len() > 0 {
            lemma_levels_match_literal(f.drop_first(), t.drop_first());
            if f[0] == t[0] && f.drop_first() == t.drop_first() {
                assert forall|i: int| 0 <= i < f.len() implies f[i] == t[i] by {
                    if i > 0 {
                        assert(f[i] == f.drop_first()[i - 1]);
                        assert(t[i] == t.drop_first()[i - 1]);
                    }
                }
                assert(f =~= t);
            }
            if f == t {
                assert(f.drop_first() =~= t.drop_first());
            }
        }
    }
}

/// Law: a filter with no wildcard level matches exactly the topic of the same name.
pub proof fn lemma_literal_filter_matches_only_itself(filter: Seq<char>, topic: Seq<char>)
    requires
        no_wildcard_levels(topic_levels(filter)),
    ensures
        topic_matches_spec(filter, topic) <==> filter == topic,
{
    lemma_levels_match_literal(topic_levels(filter), topic_levels(topic));
    lemma_join_topic_levels(filter);
    lemma_join_topic_levels(topic);
}

/// Law: a topic name with no '#' or '+' in it matches itself as a filter.
pub proof fn lemma_topic_matches_itself(topic: Seq<char>)
    requires
        !topic.contains('#'),
        !topic.contains('+'),
    ensures
        topic_matches_spec(topic, topic),
{
    lemma_topic_levels_chars(topic);
    let l = topic_levels(topic);
    assert forall|i: int| 0 <= i < l.len() implies l[i] != seq!['#'] && l[i] != seq!['+'] by {
        if l[i] == seq!['#'] {
            assert(l[i][0] == '#');
        }
        if l[i] == seq!['+'] {
            assert(l[i][0] == '+');
        }
    }
    lemma_literal_filter_matches_only_itself(topic, topic);
}

/// The characters of a string slice.
fn chars_of(s: &str) -> (r: Vec<char>)
    ensures
        r@ == s@,
{
    let mut out: Vec<char> = Vec::new();
    let mut it = s.chars();
    loop
        invariant
            it.obeys_prophetic_iter_laws(),
            it.decrease() is Some,
            out@ + it.remaining() == s@,
        decreases it.decrease()->0,
    {
        let ghost before = it.remaining();
        match it.next() {
            Some(c) => {
                assert(out@.push(c) + it.remaining() =~= out@ + before);
                out.push(c);
            },
            None => {
                assert(out@ + Seq::<char>::empty() =~= out@);
                return out;
            },
        }
    }
}

/// The levels of a sequence of characters, each as its characters.
fn split_levels(chars: &Vec<char>) -> (r: Vec<Vec<char>>)
    ensures
        r@.map_values(|l: Vec<char>| l@) == topic_levels(chars@),
{
    let mut done: Vec<Vec<char>> = Vec::new();
    let mut current: Vec<char> = Vec::new();
    let n = chars.len();
    let mut i: usize = 0;
    assert(chars@.take(0) =~= Seq::<char>::empty());
    assert(done@.map_values(|l: Vec<char>| l@).push(current@) =~= topic_levels(chars@.take(0)));
    while i < n
        invariant
            n == chars@.len(),
            i <= n,
            done@.map_values(|l: Vec<char>| l@).push(current@) == topic_levels(chars@.take(i as int)),
        decreases n - i,
    {
        let c = chars[i];
        let ghost prev = topic_levels(chars@.take(i as int));
        assert(chars@.take(i + 1).drop_last() =~= chars@.take(i as int));
        assert(chars@.take(i + 1).last() == c);
        if c == '/' {
            let finished = current;
            done.push(finished);
            current = Vec::new();
            assert(done@.map_values(|l: Vec<char>| l@).push(current@) =~= prev.push(Seq::empty()));
        } else {
            current.push(c);
            assert(done@.map_values(|l: Vec<char>| l@).push(current@) =~= prev.update(
                prev.len() - 1,
                prev.last().push(c),
            ));
        }
        i = i + 1;
    }
    assert(chars@.take(n as int) =~= chars@);
    done.push(current);
    done
}

/// Whether two levels hold the same characters.
fn level_eq(a: &Vec<char>, b: &Vec<char>) -> (r: bool)
    ensures
        r == (a@ == b@),
{
    if a.len() != b.len() {
        return false;
    }
    let mut i: usize = 0;
    while i < a.len()
        invariant
            a@.len() == b@.len(),
            i <= a@.len(),
            forall|k: int| 0 <= k < i ==> a@[k] == b@[k],
        decreases a@.len() - i,
    {
        if a[i] != b[i] {
            return false;
        }
        i = i + 1;
    }
    assert(a@ =~= b@);
    true
}

/// Whether a level is the single character `c`.
fn level_is(a: &Vec<char>, c: char) -> (r: bool)
    ensures
        r == (a@ == seq![c]),
{
    let r = a.len() == 1 && a[0] == c;
    if r {
        assert(a@ =~= seq![c]);
    }
    r
}

/// MQTT topic filter matching with `+` (single level) and `#` (multi-level) wildcards.
pub fn topic_matches(filter: &str, topic: &str) -> (r: bool)
    ensures
        r == topic_matches_spec(filter@, topic@),
{
    let filter_chars = chars_of(filter);
    let topic_chars = chars_of(topic);
    let filter_parts = split_levels(&filter_chars);
    let topic_parts = split_levels(&topic_chars);
    match_topic_parts(filter_parts.as_slice(), topic_parts.as_slice())
}

fn match_topic_parts(filter: &[Vec<char>], topic: &[Vec<char>]) -> (r: bool)
    ensures
        r == levels_match(filter@.map_values(|l: Vec<char>| l@), topic@.map_values(|l: Vec<char>| l@)),
    decreases filter@.len(),
{
    let ghost fv = filter@.map_values(|l: Vec<char>| l@);
    let ghost tv = topic@.map_values(|l: Vec<char>| l@);
    if filter.len() == 0 {
        return topic.len() == 0;
    }
    if level_is(&filter[0], '#') {
        return filter.len() == 1;
    }
    if topic.len() == 0 {
        return false;
    }
    if level_is(&filter[0], '+') || level_eq(&filter[0], &topic[0]) {
        let rest_filter = &filter[1..filter.len()];
        let rest_topic = &topic[1..topic.len()];
        assert(rest_filter@.map_values(|l: Vec<char>| l@) =~= fv.drop_first());
        assert(rest_topic@.map_values(|l: Vec<char>| l@) =~= tv.drop_first());
        return match_topic_parts(rest_filter, rest_topic);
    }
    false
}

} // verus!
