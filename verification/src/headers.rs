use crate::text::{decimal, decimal_text};
use vstd::prelude::*;
use vstd::string::{StrSliceExecFns, StringSliceAdditionalSpecFns};

verus! {

/// `http::HeaderMap`, as hyper hands it on: the headers of one message.
#[verifier::external_type_specification]
#[verifier::external_body]
#[verifier::reject_recursive_types(T)]
pub struct ExHeaderMap<T>(hyper::HeaderMap<T>);

/// `http::HeaderValue`: the bytes of one header's value.
#[verifier::external_type_specification]
#[verifier::external_body]
pub struct ExHeaderValue(hyper::header::HeaderValue);

/// A header as contracts speak of it: its name in lower case, and the bytes
/// of its value.
pub type Pair = (Seq<char>, Seq<u8>);

/// What a header map holds: one pair for every value, in the order in which
/// the map's `iter` yields them. A name with several values has its pairs
/// side by side.
pub uninterp spec fn header_pairs(map: hyper::HeaderMap) -> Seq<Pair>;

/// The most pairs that a map may hold when a header is put into it. Putting
/// a header into a map fails only where its table has to grow past 32768
/// slots, and a table grows when names fill a fifth of it, or more.
pub const HEADER_ROOM: usize = 4096;

/// Whether `name` is made of lower-case letters, digits and hyphens, and is
/// one to sixty-four of them long: a header name in the form in which a map
/// keeps it.
pub open spec fn is_plain_name(name: Seq<char>) -> bool {
    &&& 1 <= name.len() <= 64
    &&& forall|i: int|
        0 <= i < name.len() ==> ('a' <= #[trigger] name[i] <= 'z' || '0' <= name[i] <= '9' || name[i]
            == '-')
}

/// Pair `i` is the first with the name.
pub open spec fn first_named(pairs: Seq<Pair>, name: Seq<char>, i: int) -> bool {
    &&& 0 <= i < pairs.len()
    &&& pairs[i].0 == name
    &&& forall|j: int| 0 <= j < i ==> (#[trigger] pairs[j]).0 != name
}

/// The value of the first pair with the name.
pub open spec fn first_value(pairs: Seq<Pair>, name: Seq<char>) -> Option<Seq<u8>> {
    if exists|i: int| first_named(pairs, name, i) {
        Some(pairs[choose|i: int| first_named(pairs, name, i)].1)
    } else {
        None
    }
}

/// Whether a pair has another name than `name`.
pub open spec fn named_otherwise(pair: Pair, name: Seq<char>) -> bool {
    pair.0 != name
}

/// The pairs after `name` was given `value` as its only value: the first
/// pair with the name holds the new value and the name's other pairs are
/// gone, or, where no pair had the name, a new pair stands at the end.
pub open spec fn inserted(pairs: Seq<Pair>, name: Seq<char>, value: Seq<u8>) -> Seq<Pair> {
    if exists|i: int| first_named(pairs, name, i) {
        let i = choose|i: int| first_named(pairs, name, i);
        pairs.take(i).push((name, value)) + pairs.skip(i + 1).filter(
            |p: Pair| named_otherwise(p, name),
        )
    } else {
        pairs.push((name, value))
    }
}

/// Pair `i` is the last with the name.
pub open spec fn last_named(pairs: Seq<Pair>, name: Seq<char>, i: int) -> bool {
    &&& 0 <= i < pairs.len()
    &&& pairs[i].0 == name
    &&& forall|j: int| i < j < pairs.len() ==> (#[trigger] pairs[j]).0 != name
}

/// The pairs after `value` was added to the values of `name`: the new pair
/// stands behind the last pair with the name or, where no pair has the
/// name, at the end.
pub open spec fn appended(pairs: Seq<Pair>, name: Seq<char>, value: Seq<u8>) -> Seq<Pair> {
    if exists|i: int| last_named(pairs, name, i) {
        let i = choose|i: int| last_named(pairs, name, i);
        pairs.take(i + 1).push((name, value)) + pairs.skip(i + 1)
    } else {
        pairs.push((name, value))
    }
}

/// The values that the pairs hold under the name, in their order.
pub open spec fn values_of(pairs: Seq<Pair>, name: Seq<char>) -> Seq<Seq<u8>>
    decreases pairs.len(),
{
    if pairs.len() == 0 {
        Seq::empty()
    } else if pairs.last().0 == name {
        values_of(pairs.drop_last(), name).push(pairs.last().1)
    } else {
        values_of(pairs.drop_last(), name)
    }
}

/// Whether some pair has the name.
pub open spec fn has_name(pairs: Seq<Pair>, name: Seq<char>) -> bool {
    exists|k: int| 0 <= k < pairs.len() && (#[trigger] pairs[k]).0 == name
}

/// Whether a byte is a tab or a visible character of ASCII, the space
/// included.
pub open spec fn is_visible(byte: u8) -> bool {
    (32 <= byte < 127) || byte == 9
}

/// The bytes as text, where all of them are visible.
pub open spec fn visible_text(bytes: Seq<u8>) -> Option<Seq<char>> {
    if forall|i: int| 0 <= i < bytes.len() ==> is_visible(#[trigger] bytes[i]) {
        Some(bytes.map_values(|b: u8| b as char))
    } else {
        None
    }
}

/// Whether text may stand as a header's value: it holds no control
/// character but the tab.
pub open spec fn is_value_safe(text: Seq<char>) -> bool {
    forall|i: int|
        0 <= i < text.len() ==> ((#[trigger] text[i]) as u32 >= 32 && text[i] as u32 != 127) || text[i] as u32
            == 9
}

/// `HeaderMap::new`: a map without headers.
#[verifier::external_body]
pub(crate) fn empty_headers() -> (map: hyper::HeaderMap)
    ensures
        header_pairs(map) == Seq::<Pair>::empty(),
{
    hyper::HeaderMap::new()
}

/// `HeaderMap::len`: the number of values in the map, which is the number of
/// pairs that `iter` yields.
#[verifier::external_body]
pub(crate) fn header_count(map: &hyper::HeaderMap) -> (count: usize)
    ensures
        count == header_pairs(*map).len(),
{
    map.len()
}

/// `HeaderMap::iter`, for the names alone: the name of every pair, in
/// `iter`'s order, as `HeaderName::as_str` gives it.
#[verifier::external_body]
pub(crate) fn header_names(map: &hyper::HeaderMap) -> (names: Vec<String>)
    ensures
        names@.len() == header_pairs(*map).len(),
        forall|i: int| 0 <= i < names@.len() ==> (#[trigger] names@[i])@ == header_pairs(*map)[i].0,
{
    map.iter().map(|(name, _)| name.as_str().to_owned()).collect()
}

/// `HeaderMap::get` with `HeaderValue::to_str`: the first value of `name` as
/// text, or nothing where the name has no value or its first value holds a
/// byte that is not visible.
#[verifier::external_body]
pub(crate) fn header_text(map: &hyper::HeaderMap, name: &str) -> (text: Option<String>)
    requires
        is_plain_name(name@),
    ensures
        match first_value(header_pairs(*map), name@) {
            Some(bytes) => match text {
                Some(t) => visible_text(bytes) == Some(t@),
                None => visible_text(bytes) is None,
            },
            None => text is None,
        },
{
    map.get(name).and_then(|value| value.to_str().ok()).map(|text| text.to_owned())
}

/// `HeaderMap::append` of pair `i` of `from`, its value cloned: in `into`
/// that pair's value comes after the values that its name has there, or
/// last in the map where the name has none.
#[verifier::external_body]
pub(crate) fn header_copy(from: &hyper::HeaderMap, i: usize, into: &mut hyper::HeaderMap)
    requires
        i < header_pairs(*from).len(),
        header_pairs(*old(into)).len() < HEADER_ROOM,
    ensures
        header_pairs(*final(into)) == appended(
            header_pairs(*old(into)),
            header_pairs(*from)[i as int].0,
            header_pairs(*from)[i as int].1,
        ),
{
    if let Some((name, value)) = from.iter().nth(i) {
        into.append(name, value.clone());
    }
}

/// `HeaderMap::insert` of a value that `HeaderValue::from_str` makes of
/// `value`, which it does of every text without a control character but the
/// tab: `name` gets the text's bytes as its only value.
#[verifier::external_body]
pub(crate) fn header_put(map: &mut hyper::HeaderMap, name: &'static str, value: &str)
    requires
        is_plain_name(name@),
        is_value_safe(value@),
        header_pairs(*old(map)).len() < HEADER_ROOM,
    ensures
        header_pairs(*final(map)) == inserted(header_pairs(*old(map)), name@, value.spec_bytes()),
{
    if let Ok(bytes) = hyper::header::HeaderValue::from_str(value) {
        map.insert(name, bytes);
    }
}

/// Whether text may stand as a header's value.
pub fn value_is_safe(text: &str) -> (safe: bool)
    ensures
        safe == is_value_safe(text@),
{
    let n = text.unicode_len();
    let mut i: usize = 0;
    while i < n
        invariant
            n == text@.len(),
            i <= n,
            forall|j: int|
                0 <= j < i ==> ((#[trigger] text@[j]) as u32 >= 32 && text@[j] as u32 != 127)
                    || text@[j] as u32 == 9,
        decreases n - i,
    {
        let code = text.get_char(i) as u32;
        if !((code >= 32 && code != 127) || code == 9) {
            return false;
        }
        i += 1;
    }
    true
}

/// Whether `letter` is `lower`, or the capital of it.
pub open spec fn same_letter(letter: char, lower: char) -> bool {
    letter == lower || ('A' <= letter <= 'Z' && letter as u32 + 32 == lower as u32)
}

/// Whether `name` is `lower` when capitals are read as small letters.
pub open spec fn names_match(name: Seq<char>, lower: Seq<char>) -> bool {
    &&& name.len() == lower.len()
    &&& forall|i: int| 0 <= i < name.len() ==> same_letter(#[trigger] name[i], lower[i])
}

/// Whether a header's name marks it as meant for one hop only, so that a
/// proxy does not pass it on. Capitals and small letters count as the same.
pub open spec fn is_hop_by_hop(name: Seq<char>) -> bool {
    ||| names_match(name, "connection"@)
    ||| names_match(name, "keep-alive"@)
    ||| names_match(name, "proxy-authenticate"@)
    ||| names_match(name, "proxy-authorization"@)
    ||| names_match(name, "te"@)
    ||| names_match(name, "trailers"@)
    ||| names_match(name, "transfer-encoding"@)
    ||| names_match(name, "upgrade"@)
}

/// Whether `name` is `lower` when capitals are read as small letters.
pub fn name_is(name: &str, lower: &str) -> (same: bool)
    ensures
        same == names_match(name@, lower@),
{
    let n = name.unicode_len();
    if n != lower.unicode_len() {
        return false;
    }
    let mut i: usize = 0;
    while i < n
        invariant
            n == name@.len(),
            n == lower@.len(),
            i <= n,
            forall|j: int| 0 <= j < i ==> same_letter(#[trigger] name@[j], lower@[j]),
        decreases n - i,
    {
        let letter = name.get_char(i);
        let wanted = lower.get_char(i);
        let same = letter == wanted || (letter >= 'A' && letter <= 'Z' && letter as u32 + 32
            == wanted as u32);
        if !same {
            return false;
        }
        i += 1;
    }
    true
}

/// Whether a header of this name is meant for one hop only.
pub fn hop_by_hop(name: &str) -> (single_hop: bool)
    ensures
        single_hop == is_hop_by_hop(name@),
{
    name_is(name, "connection") || name_is(name, "keep-alive") || name_is(
        name,
        "proxy-authenticate",
    ) || name_is(name, "proxy-authorization") || name_is(name, "te") || name_is(name, "trailers")
        || name_is(name, "transfer-encoding") || name_is(name, "upgrade")
}

/// The pairs of `into` after every pair of `from` that is not meant for one
/// hop only was added to it, in `from`'s order. A name with several values
/// keeps them all, in their order.
pub open spec fn copied(from: Seq<Pair>, into: Seq<Pair>) -> Seq<Pair>
    decreases from.len(),
{
    if from.len() == 0 {
        into
    } else {
        let earlier = copied(from.drop_last(), into);
        if is_hop_by_hop(from.last().0) {
            earlier
        } else {
            appended(earlier, from.last().0, from.last().1)
        }
    }
}

/// Putting a header into a map adds one pair at most, and every pair of the
/// result is the new one or was there before.
pub proof fn lemma_inserted(pairs: Seq<Pair>, name: Seq<char>, value: Seq<u8>)
    ensures
        inserted(pairs, name, value).len() <= pairs.len() + 1,
        forall|k: int|
            0 <= k < inserted(pairs, name, value).len() ==> (#[trigger] inserted(pairs, name, value)[k])
                == (name, value) || pairs.contains(inserted(pairs, name, value)[k]),
        inserted(pairs, name, value).contains((name, value)),
{
    let out = inserted(pairs, name, value);
    if exists|i: int| first_named(pairs, name, i) {
        let i = choose|i: int| first_named(pairs, name, i);
        let keep = |p: Pair| named_otherwise(p, name);
        let rest = pairs.skip(i + 1);
        let head = pairs.take(i).push((name, value));
        let tail = rest.filter(keep);
        rest.lemma_filter_len(keep);
        assert(out == head + tail);
        assert(head.len() == i + 1);
        assert(out.len() == i + 1 + tail.len());
        assert(out[i] == head[i]);
        assert(out[i] == (name, value));
        assert forall|k: int| 0 <= k < out.len() implies (#[trigger] out[k]) == (name, value)
            || pairs.contains(out[k]) by {
            if k < i {
                assert(out[k] == pairs[k]);
            } else if k > i {
                let p = tail[k - i - 1];
                assert(out[k] == p);
                assert(tail.contains(p));
                rest.lemma_filter_contains_rev(keep, p);
                let at = choose|at: int| 0 <= at < rest.len() && rest[at] == p;
                assert(pairs[at + i + 1] == p);
            }
        }
    } else {
        assert(out[pairs.len() as int] == (name, value));
        assert forall|k: int| 0 <= k < out.len() implies (#[trigger] out[k]) == (name, value)
            || pairs.contains(out[k]) by {
            if k < pairs.len() {
                assert(out[k] == pairs[k]);
            }
        }
    }
}

/// The values of a name in two runs of pairs, one after the other, are its
/// values in the first run and then those in the second.
pub proof fn lemma_values_joined(front: Seq<Pair>, back: Seq<Pair>, name: Seq<char>)
    ensures
        values_of(front + back, name) == values_of(front, name) + values_of(back, name),
    decreases back.len(),
{
    if back.len() == 0 {
        assert(front + back =~= front);
        assert(values_of(front, name) + values_of(back, name) =~= values_of(front, name));
    } else {
        let all = front + back;
        assert(all.drop_last() =~= front + back.drop_last());
        assert(all.last() == back.last());
        lemma_values_joined(front, back.drop_last(), name);
        let a = values_of(front, name);
        let b = values_of(back.drop_last(), name);
        assert((a + b).push(back.last().1) =~= a + b.push(back.last().1));
    }
}

/// A name has values exactly where some pair has it.
pub proof fn lemma_values_present(pairs: Seq<Pair>, name: Seq<char>)
    ensures
        has_name(pairs, name) <==> values_of(pairs, name).len() > 0,
    decreases pairs.len(),
{
    if pairs.len() > 0 {
        let front = pairs.drop_last();
        lemma_values_present(front, name);
        if has_name(front, name) {
            let k = choose|k: int| 0 <= k < front.len() && (#[trigger] front[k]).0 == name;
            assert(pairs[k].0 == name);
        }
        if pairs.last().0 == name {
            assert(pairs[pairs.len() - 1].0 == name);
        }
        if has_name(pairs, name) && pairs.last().0 != name {
            let k = choose|k: int| 0 <= k < pairs.len() && (#[trigger] pairs[k]).0 == name;
            assert(front[k].0 == name);
        }
    }
}

/// Leaving out the pairs of one name leaves the values of another as they
/// are, and leaves the name itself without values.
pub proof fn lemma_values_filtered(pairs: Seq<Pair>, gone: Seq<char>, name: Seq<char>)
    ensures
        values_of(pairs.filter(|p: Pair| named_otherwise(p, gone)), name) == if name == gone {
            Seq::<Seq<u8>>::empty()
        } else {
            values_of(pairs, name)
        },
    decreases pairs.len(),
{
    let keep = |p: Pair| named_otherwise(p, gone);
    if pairs.len() == 0 {
        pairs.lemma_filter_len(keep);
        assert(pairs.filter(keep) =~= pairs);
    } else {
        let front = pairs.drop_last();
        let last = pairs.last();
        lemma_values_filtered(front, gone, name);
        front.lemma_filter_push(last, keep);
        assert(front.push(last) =~= pairs);
        if keep(last) {
            assert(front.filter(keep).push(last).drop_last() =~= front.filter(keep));
        }
    }
}

/// The values under the name of a pair that stands alone.
pub proof fn lemma_values_single(pair: Pair, name: Seq<char>)
    ensures
        values_of(seq![pair], name) == if pair.0 == name {
            seq![pair.1]
        } else {
            Seq::<Seq<u8>>::empty()
        },
{
    let one = seq![pair];
    assert(one.drop_last() =~= Seq::<Pair>::empty());
    assert(values_of(one.drop_last(), name) =~= Seq::<Seq<u8>>::empty());
    assert(one.last() == pair);
    if pair.0 == name {
        assert(values_of(one, name) =~= seq![pair.1]);
    }
}

/// Adding a value to a name puts it behind the name's values and leaves
/// every other name's values as they are; one pair is added, and every pair
/// of the result is the new one or was there before.
pub proof fn lemma_appended(pairs: Seq<Pair>, name: Seq<char>, value: Seq<u8>, other: Seq<char>)
    ensures
        values_of(appended(pairs, name, value), name) == values_of(pairs, name).push(value),
        other != name ==> values_of(appended(pairs, name, value), other) == values_of(pairs, other),
        appended(pairs, name, value).len() == pairs.len() + 1,
        forall|k: int|
            0 <= k < appended(pairs, name, value).len() ==> (#[trigger] appended(pairs, name, value)[k])
                == (name, value) || pairs.contains(appended(pairs, name, value)[k]),
{
    let out = appended(pairs, name, value);
    let new = seq![(name, value)];
    lemma_values_single((name, value), name);
    lemma_values_single((name, value), other);
    if exists|i: int| last_named(pairs, name, i) {
        let i = choose|i: int| last_named(pairs, name, i);
        let front = pairs.take(i + 1);
        let back = pairs.skip(i + 1);
        assert(out =~= (front + new) + back);
        assert(pairs =~= front + back);
        assert(!has_name(back, name)) by {
            if has_name(back, name) {
                let k = choose|k: int| 0 <= k < back.len() && (#[trigger] back[k]).0 == name;
                assert(pairs[k + i + 1].0 == name);
            }
        }
        lemma_values_present(back, name);
        lemma_values_joined(front, new, name);
        lemma_values_joined(front + new, back, name);
        lemma_values_joined(front, back, name);
        assert(values_of(out, name) =~= values_of(pairs, name).push(value));
        lemma_values_joined(front, new, other);
        lemma_values_joined(front + new, back, other);
        lemma_values_joined(front, back, other);
        if other != name {
            assert(values_of(out, other) =~= values_of(pairs, other));
        }
        assert forall|k: int| 0 <= k < out.len() implies (#[trigger] out[k]) == (name, value)
            || pairs.contains(out[k]) by {
            if k <= i {
                assert(out[k] == pairs[k]);
            } else if k > i + 1 {
                assert(out[k] == pairs[k - 1]);
            }
        }
    } else {
        assert(out =~= pairs + new);
        lemma_values_joined(pairs, new, name);
        lemma_values_joined(pairs, new, other);
        assert(values_of(out, name) =~= values_of(pairs, name).push(value));
        if other != name {
            assert(values_of(out, other) =~= values_of(pairs, other));
        }
        assert forall|k: int| 0 <= k < out.len() implies (#[trigger] out[k]) == (name, value)
            || pairs.contains(out[k]) by {
            if k < pairs.len() {
                assert(out[k] == pairs[k]);
            }
        }
    }
}

/// Giving a name one value leaves every other name's values as they are.
pub proof fn lemma_inserted_others(pairs: Seq<Pair>, name: Seq<char>, value: Seq<u8>, other: Seq<char>)
    requires
        other != name,
    ensures
        values_of(inserted(pairs, name, value), other) == values_of(pairs, other),
{
    let out = inserted(pairs, name, value);
    let new = seq![(name, value)];
    lemma_values_single((name, value), other);
    if exists|i: int| first_named(pairs, name, i) {
        let i = choose|i: int| first_named(pairs, name, i);
        let front = pairs.take(i);
        let back = pairs.skip(i + 1);
        let tail = back.filter(|p: Pair| named_otherwise(p, name));
        let old = seq![pairs[i]];
        assert(out =~= (front + new) + tail);
        assert(pairs =~= (front + old) + back);
        lemma_values_single(pairs[i], other);
        lemma_values_filtered(back, name, other);
        lemma_values_joined(front, new, other);
        lemma_values_joined(front + new, tail, other);
        lemma_values_joined(front, old, other);
        lemma_values_joined(front + old, back, other);
        assert(values_of(out, other) =~= values_of(pairs, other));
    } else {
        assert(out =~= pairs + new);
        lemma_values_joined(pairs, new, other);
        assert(values_of(out, other) =~= values_of(pairs, other));
    }
}

/// What is copied adds up: the result has the target's pairs and one for
/// every pair of the source that is not meant for one hop only, and every
/// pair of the result is one of the two.
pub proof fn lemma_copied(from: Seq<Pair>, into: Seq<Pair>)
    ensures
        into.len() <= copied(from, into).len() <= into.len() + from.len(),
        forall|k: int|
            0 <= k < copied(from, into).len() ==> into.contains(#[trigger] copied(from, into)[k]) || (
            from.contains(copied(from, into)[k]) && !is_hop_by_hop(copied(from, into)[k].0)),
    decreases from.len(),
{
    if from.len() > 0 {
        let front = from.drop_last();
        let last = from.last();
        lemma_copied(front, into);
        let earlier = copied(front, into);
        let out = copied(from, into);
        assert(from[from.len() - 1] == last);
        if !is_hop_by_hop(last.0) {
            lemma_appended(earlier, last.0, last.1, last.0);
        }
        assert forall|k: int| 0 <= k < out.len() implies into.contains(#[trigger] out[k]) || (
        from.contains(out[k]) && !is_hop_by_hop(out[k].0)) by {
            let p = out[k];
            if !is_hop_by_hop(last.0) && p == last {
                assert(from.contains(p));
            } else {
                assert(earlier.contains(p));
                let at = choose|at: int| 0 <= at < earlier.len() && earlier[at] == p;
                if !into.contains(p) {
                    assert(front.contains(earlier[at]));
                    let w = choose|w: int| 0 <= w < front.len() && front[w] == p;
                    assert(from[w] == p);
                }
            }
        }
    }
}

/// Copying passes on every header but those meant for one hop only. Under
/// a name that is meant for one hop only the result holds what the target
/// held. Under any other name it holds what the target held and then every
/// value that the source holds, in the source's order.
pub proof fn law_copied_values(from: Seq<Pair>, into: Seq<Pair>, name: Seq<char>)
    ensures
        values_of(copied(from, into), name) == if is_hop_by_hop(name) {
            values_of(into, name)
        } else {
            values_of(into, name) + values_of(from, name)
        },
    decreases from.len(),
{
    if from.len() == 0 {
        assert(values_of(into, name) + values_of(from, name) =~= values_of(into, name));
    } else {
        let front = from.drop_last();
        let last = from.last();
        law_copied_values(front, into, name);
        if !is_hop_by_hop(last.0) {
            lemma_appended(copied(front, into), last.0, last.1, name);
        }
        if !is_hop_by_hop(name) && last.0 == name {
            assert((values_of(into, name) + values_of(front, name)).push(last.1) =~= values_of(
                into,
                name,
            ) + values_of(front, name).push(last.1));
        }
    }
}

/// What is copied into an empty map holds no header that is meant for one
/// hop only, no name that the source lacks, and every other name of the
/// source with all its values.
pub proof fn law_sanitized(from: Seq<Pair>, name: Seq<char>)
    ensures
        forall|k: int|
            0 <= k < copied(from, Seq::empty()).len() ==> !is_hop_by_hop(
                (#[trigger] copied(from, Seq::empty())[k]).0,
            ) && from.contains(copied(from, Seq::empty())[k]),
        values_of(copied(from, Seq::empty()), name) == if is_hop_by_hop(name) {
            Seq::<Seq<u8>>::empty()
        } else {
            values_of(from, name)
        },
        has_name(copied(from, Seq::empty()), name) <==> has_name(from, name) && !is_hop_by_hop(name),
{
    let none = Seq::<Pair>::empty();
    let out = copied(from, none);
    lemma_copied(from, none);
    law_copied_values(from, none, name);
    lemma_values_present(out, name);
    lemma_values_present(from, name);
    assert(values_of(none, name) + values_of(from, name) =~= values_of(from, name));
    assert forall|k: int| 0 <= k < out.len() implies !is_hop_by_hop((#[trigger] out[k]).0)
        && from.contains(out[k]) by {
        assert(!none.contains(out[k]));
    }
}

/// Copies every header of `src` into `dst` but those meant for one hop only
/// (`connection`, `keep-alive`, `proxy-authenticate`,
/// `proxy-authorization`, `te`, `trailers`, `transfer-encoding`,
/// `upgrade`). What `dst` holds stays, and a copied value comes behind the
/// values that `dst` holds under its name.
pub fn copy_headers(src: &hyper::HeaderMap, dst: &mut hyper::HeaderMap)
    requires
        header_pairs(*src).len() + header_pairs(*old(dst)).len() <= HEADER_ROOM,
    ensures
        header_pairs(*final(dst)) == copied(header_pairs(*src), header_pairs(*old(dst))),
{
    let names = header_names(src);
    let n = names.len();
    let ghost from = header_pairs(*src);
    let ghost into = header_pairs(*dst);
    let mut i: usize = 0;
    proof {
        assert(from.take(0) =~= Seq::<Pair>::empty());
    }
    while i < n
        invariant
            from == header_pairs(*src),
            n == from.len(),
            names@.len() == n,
            forall|j: int| 0 <= j < n ==> (#[trigger] names@[j])@ == from[j].0,
            from.len() + into.len() <= HEADER_ROOM,
            i <= n,
            header_pairs(*dst) == copied(from.take(i as int), into),
        decreases n - i,
    {
        proof {
            lemma_copied(from.take(i as int), into);
            assert(from.take(i + 1).drop_last() =~= from.take(i as int));
            assert(from.take(i + 1).last() == from[i as int]);
        }
        if !hop_by_hop(names[i].as_str()) {
            header_copy(src, i, dst);
        }
        i += 1;
    }
    proof {
        assert(from.take(n as int) =~= from);
    }
}

/// The headers of `src` without those meant for one hop only, in a map of
/// their own; nothing where `src` holds more headers than a map has room
/// for.
pub fn sanitized(src: &hyper::HeaderMap) -> (clean: Option<hyper::HeaderMap>)
    ensures
        match clean {
            Some(map) => header_pairs(*src).len() <= HEADER_ROOM && header_pairs(map) == copied(
                header_pairs(*src),
                Seq::empty(),
            ),
            None => header_pairs(*src).len() > HEADER_ROOM,
        },
{
    if header_count(src) > HEADER_ROOM {
        return None;
    }
    let mut map = empty_headers();
    copy_headers(src, &mut map);
    Some(map)
}

/// The first value of `name` as text, where it has a value that is text.
pub open spec fn text_of(pairs: Seq<Pair>, name: Seq<char>) -> Option<Seq<char>> {
    match first_value(pairs, name) {
        Some(bytes) => visible_text(bytes),
        None => None,
    }
}

/// Who a request came from, as its headers say: what `x-forwarded-for`
/// holds, else what `x-real-ip` holds.
pub open spec fn client_of(pairs: Seq<Pair>) -> Option<Seq<char>> {
    match text_of(pairs, "x-forwarded-for"@) {
        Some(client) => Some(client),
        None => text_of(pairs, "x-real-ip"@),
    }
}

/// Who a request came from, as its headers say.
pub fn get_client_ip(headers: &hyper::HeaderMap) -> (client: Option<String>)
    ensures
        match client {
            Some(c) => client_of(header_pairs(*headers)) == Some(c@),
            None => client_of(header_pairs(*headers)) is None,
        },
{
    proof {
        reveal_strlit("x-forwarded-for");
        reveal_strlit("x-real-ip");
    }
    match header_text(headers, "x-forwarded-for") {
        Some(client) => Some(client),
        None => header_text(headers, "x-real-ip"),
    }
}

/// The pairs after `name` was given `text` as its only value, where there
/// is a text and it may stand as a header's value; else the pairs as they
/// are.
pub open spec fn set_if_safe(pairs: Seq<Pair>, name: Seq<char>, text: Option<Seq<char>>) -> Seq<
    Pair,
> {
    match text {
        Some(t) if is_value_safe(t) => inserted(pairs, name, vstd::utf8::encode_utf8(t)),
        _ => pairs,
    }
}

/// A port as the text of a header, where there is one.
pub open spec fn port_text(port: Option<u16>) -> Option<Seq<char>> {
    match port {
        Some(p) => Some(decimal_text(p as nat)),
        None => None,
    }
}

/// The pairs after the host, the port and the scheme that a request was
/// addressed to were put down under `x-forwarded-host`, `x-forwarded-port`
/// and `x-forwarded-proto`, each where the request's address has it.
pub open spec fn with_forwarded(
    pairs: Seq<Pair>,
    host: Option<Seq<char>>,
    port: Option<u16>,
    scheme: Option<Seq<char>>,
) -> Seq<Pair> {
    set_if_safe(
        set_if_safe(set_if_safe(pairs, "x-forwarded-host"@, host), "x-forwarded-port"@, port_text(port)),
        "x-forwarded-proto"@,
        scheme,
    )
}

/// Setting a name leaves every other name's values as they are, keeps
/// every name that was there, and adds no pair under another name.
pub proof fn lemma_set_if_safe(
    pairs: Seq<Pair>,
    name: Seq<char>,
    text: Option<Seq<char>>,
    other: Seq<char>,
)
    ensures
        other != name ==> values_of(set_if_safe(pairs, name, text), other) == values_of(pairs, other),
        has_name(pairs, other) ==> has_name(set_if_safe(pairs, name, text), other),
        forall|k: int|
            0 <= k < set_if_safe(pairs, name, text).len() ==> (#[trigger] set_if_safe(
                pairs,
                name,
                text,
            )[k]).0 == name || pairs.contains(set_if_safe(pairs, name, text)[k]),
{
    let out = set_if_safe(pairs, name, text);
    if out != pairs {
        let value = vstd::utf8::encode_utf8(text->0);
        lemma_inserted(pairs, name, value);
        if other != name {
            lemma_inserted_others(pairs, name, value, other);
            lemma_values_present(pairs, other);
            lemma_values_present(out, other);
        } else {
            let at = choose|at: int| 0 <= at < out.len() && out[at] == (name, value);
            assert(out[at].0 == name);
        }
    } else {
        assert forall|k: int| 0 <= k < out.len() implies pairs.contains(#[trigger] out[k]) by {}
    }
}

/// None of the three names under which the request's address is put down
/// marks a header as meant for one hop only.
pub proof fn lemma_forwarded_names()
    ensures
        !is_hop_by_hop("x-forwarded-host"@),
        !is_hop_by_hop("x-forwarded-port"@),
        !is_hop_by_hop("x-forwarded-proto"@),
{
    reveal_strlit("x-forwarded-host");
    reveal_strlit("x-forwarded-port");
    reveal_strlit("x-forwarded-proto");
    reveal_strlit("connection");
    reveal_strlit("keep-alive");
    reveal_strlit("proxy-authenticate");
    reveal_strlit("proxy-authorization");
    reveal_strlit("te");
    reveal_strlit("trailers");
    reveal_strlit("transfer-encoding");
    reveal_strlit("upgrade");
    assert(!same_letter('x', 't'));
    assert("x-forwarded-proto"@[0] == 'x' && "transfer-encoding"@[0] == 't');
}

/// What is sent on, for the headers `inbound` of a request. No header that
/// is meant for one hop only is among it. Every other name of the request
/// is; and unless it is one of the three names under which the request's
/// address is put down, it has all the values that the request has under
/// it, in their order.
pub proof fn law_sent_on(
    inbound: Seq<Pair>,
    host: Option<Seq<char>>,
    port: Option<u16>,
    scheme: Option<Seq<char>>,
    name: Seq<char>,
)
    ensures
        forall|k: int|
            0 <= k < with_forwarded(copied(inbound, Seq::empty()), host, port, scheme).len()
                ==> !is_hop_by_hop(
                (#[trigger] with_forwarded(copied(inbound, Seq::empty()), host, port, scheme)[k]).0,
            ),
        has_name(inbound, name) && !is_hop_by_hop(name) ==> has_name(
            with_forwarded(copied(inbound, Seq::empty()), host, port, scheme),
            name,
        ),
        name != "x-forwarded-host"@ && name != "x-forwarded-port"@ && name != "x-forwarded-proto"@
            ==> values_of(with_forwarded(copied(inbound, Seq::empty()), host, port, scheme), name)
            == if is_hop_by_hop(name) {
            Seq::<Seq<u8>>::empty()
        } else {
            values_of(inbound, name)
        },
{
    let clean = copied(inbound, Seq::<Pair>::empty());
    let one = set_if_safe(clean, "x-forwarded-host"@, host);
    let two = set_if_safe(one, "x-forwarded-port"@, port_text(port));
    let out = set_if_safe(two, "x-forwarded-proto"@, scheme);
    law_sanitized(inbound, name);
    lemma_forwarded_names();
    lemma_set_if_safe(clean, "x-forwarded-host"@, host, name);
    lemma_set_if_safe(one, "x-forwarded-port"@, port_text(port), name);
    lemma_set_if_safe(two, "x-forwarded-proto"@, scheme, name);
    assert forall|k: int| 0 <= k < out.len() implies !is_hop_by_hop((#[trigger] out[k]).0) by {
        let p = out[k];
        if p.0 != "x-forwarded-proto"@ {
            let a = choose|a: int| 0 <= a < two.len() && two[a] == p;
            if p.0 != "x-forwarded-port"@ {
                let b = choose|b: int| 0 <= b < one.len() && one[b] == two[a];
                if p.0 != "x-forwarded-host"@ {
                    let c = choose|c: int| 0 <= c < clean.len() && clean[c] == one[b];
                    assert(!is_hop_by_hop(clean[c].0));
                }
            }
        }
    }
}

/// An optional text as contracts speak of it.
pub open spec fn text_view(text: Option<&str>) -> Option<Seq<char>> {
    match text {
        Some(t) => Some(t@),
        None => None,
    }
}

/// Puts down, for the upstream server, the host, the port and the scheme
/// that the request was addressed to.
pub fn add_forwarded(
    map: &mut hyper::HeaderMap,
    host: Option<&str>,
    port: Option<u16>,
    scheme: Option<&str>,
)
    requires
        header_pairs(*old(map)).len() + 3 <= HEADER_ROOM,
    ensures
        header_pairs(*final(map)) == with_forwarded(
            header_pairs(*old(map)),
            text_view(host),
            port,
            text_view(scheme),
        ),
        header_pairs(*final(map)).len() <= header_pairs(*old(map)).len() + 3,
{
    proof {
        reveal_strlit("x-forwarded-host");
        reveal_strlit("x-forwarded-port");
        reveal_strlit("x-forwarded-proto");
    }
    let ghost p0 = header_pairs(*map);
    if let Some(h) = host {
        if value_is_safe(h) {
            proof {
                lemma_inserted(p0, "x-forwarded-host"@, h.spec_bytes());
            }
            header_put(map, "x-forwarded-host", h);
        }
    }
    let ghost p1 = header_pairs(*map);
    if let Some(p) = port {
        let digits = decimal(p as u64);
        let shown = digits.as_str();
        if value_is_safe(shown) {
            proof {
                lemma_inserted(p1, "x-forwarded-port"@, shown.spec_bytes());
            }
            header_put(map, "x-forwarded-port", shown);
        }
    }
    let ghost p2 = header_pairs(*map);
    if let Some(s) = scheme {
        if value_is_safe(s) {
            proof {
                lemma_inserted(p2, "x-forwarded-proto"@, s.spec_bytes());
            }
            header_put(map, "x-forwarded-proto", s);
        }
    }
}

} // verus!
