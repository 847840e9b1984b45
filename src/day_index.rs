use crate::buckets::TimeBucket;
use crate::time::{FetchEntriesTime, QueryError};
use hdk::prelude::{Component, SerializedBytes, UnsafeBytes};
use vstd::prelude::*;

verus! {

pub open spec fn is_digit(c: char) -> bool {
    '0' <= c && c <= '9'
}

pub open spec fn all_digits(s: Seq<char>) -> bool {
    forall|i: int| 0 <= i < s.len() ==> is_digit(#[trigger] s[i])
}

/// The number that a string of decimal digits writes.
pub open spec fn digits_value(s: Seq<char>) -> nat
    decreases s.len(),
{
    if s.len() == 0 {
        0
    } else {
        digits_value(s.drop_last()) * 10 + ((s.last() as int - '0' as int) as nat)
    }
}

/// What follows an optional leading plus sign.
pub open spec fn unsigned_part(s: Seq<char>) -> Seq<char> {
    if s.len() > 0 && s[0] == '+' {
        s.drop_first()
    } else {
        s
    }
}

/// The hour that the last component of an hour bucket's key names: decimal
/// digits, after an optional plus sign, that write a number below 24.
pub open spec fn hour_of_component(s: Seq<char>) -> Option<u32> {
    let d = unsigned_part(s);
    if d.len() > 0 && all_digits(d) && digits_value(d) < 24 {
        Some(digits_value(d) as u32)
    } else {
        None
    }
}

/// The text of the path component that a child link's tag carries.
pub uninterp spec fn tag_component_text(tag: Seq<u8>) -> Option<Seq<char>>;

/// The hour that a child link's tag names, if it names one.
pub open spec fn hour_of_tag(tag: Seq<u8>) -> Option<u32> {
    match tag_component_text(tag) {
        Some(text) => hour_of_component(text),
        None => None,
    }
}

/// The hour lookups of `date` for the hours that the components name.
pub open spec fn component_hour_buckets(time: FetchEntriesTime, components: Seq<Seq<char>>) -> Seq<
    TimeBucket,
> {
    Seq::new(
        components.len(),
        |i: int| TimeBucket::Hour(time.date(), hour_of_component(components[i])->Some_0),
    )
}

proof fn lemma_digits_value_prefix(s: Seq<char>, k: int)
    requires
        0 <= k <= s.len(),
        all_digits(s),
    ensures
        digits_value(s.subrange(0, k)) <= digits_value(s),
    decreases s.len() - k,
{
    if k < s.len() {
        let t = s.drop_last();
        assert(all_digits(t)) by {
            assert forall|i: int| 0 <= i < t.len() implies is_digit(#[trigger] t[i]) by {
                assert(t[i] == s[i]);
            }
        }
        lemma_digits_value_prefix(t, k);
        assert(t.subrange(0, k) =~= s.subrange(0, k));
    } else {
        assert(s.subrange(0, k) =~= s);
    }
}

/// Reads the hour that the last component of an hour bucket's key names.
pub fn parse_hour_component(text: &str) -> (r: Option<u32>)
    ensures
        r == hour_of_component(text@),
{
    let n = text.unicode_len();
    let mut start: usize = 0;
    if n > 0 && text.get_char(0) == '+' {
        start = 1;
    }
    let ghost d = unsigned_part(text@);
    assert(d =~= text@.subrange(start as int, n as int));
    if start == n {
        return None;
    }
    let mut i: usize = start;
    let mut value: u32 = 0;
    while i < n
        invariant
            start <= i <= n,
            n == text@.len(),
            d == text@.subrange(start as int, n as int),
            d == unsigned_part(text@),
            all_digits(d.subrange(0, i - start)),
            value == digits_value(d.subrange(0, i - start)),
            value < 24,
        decreases n - i,
    {
        let c = text.get_char(i);
        if c < '0' || c > '9' {
            assert(!is_digit(d[i - start]));
            assert(!all_digits(d));
            return None;
        }
        let ghost prefix = d.subrange(0, i - start + 1);
        assert(prefix.drop_last() =~= d.subrange(0, i - start));
        value = value * 10 + (c as u32 - '0' as u32);
        assert(prefix.last() == c);
        assert(value == digits_value(prefix));
        i = i + 1;
        assert(all_digits(d.subrange(0, i - start))) by {
            assert forall|k: int| 0 <= k < prefix.len() implies is_digit(#[trigger] prefix[k]) by {
                if k < prefix.len() - 1 {
                    assert(prefix[k] == d.subrange(0, i - start - 1)[k]);
                }
            }
        }
        if value >= 24 {
            proof {
                if all_digits(d) {
                    lemma_digits_value_prefix(d, i - start);
                }
            }
            return None;
        }
    }
    assert(d.subrange(0, n - start) =~= d);
    Some(value)
}

/// Relies on hdk's decoding of a path `Component` from the serialized bytes
/// of a child link's tag, and on `String::try_from(&Component)`, which reads
/// the component's characters back: the text depends on the tag's bytes alone,
/// and is absent when either step fails.
#[verifier::external_body]
fn decode_tag_component(tag: &Vec<u8>) -> (r: Option<String>)
    ensures
        r matches Some(text) ==> tag_component_text(tag@) == Some(text@),
        r is None ==> tag_component_text(tag@) is None,
{
    let bytes = SerializedBytes::from(UnsafeBytes::from(tag.clone()));
    match Component::try_from(bytes) {
        Ok(component) => String::try_from(&component).ok(),
        Err(_) => None,
    }
}

/// The hour lookups for the hours that the components name, in their order;
/// refused when one of them names no hour.
pub fn hour_buckets_of_components(time: FetchEntriesTime, components: &Vec<String>) -> (r: Result<
    Vec<TimeBucket>,
    QueryError,
>)
    ensures
        r is Ok <==> forall|i: int|
            0 <= i < components@.len() ==> (#[trigger] hour_of_component(components@[i]@)) is Some,
        r matches Ok(v) ==> v@ == component_hour_buckets(
            time,
            components@.map_values(|c: String| c@),
        ),
        r is Err ==> r == Err::<Vec<TimeBucket>, QueryError>(QueryError::MalformedBucketComponent),
{
    let ghost texts = components@.map_values(|c: String| c@);
    let date = time.to_date();
    let mut out: Vec<TimeBucket> = Vec::new();
    let mut i: usize = 0;
    while i < components.len()
        invariant
            i <= components@.len(),
            date == time.date(),
            texts == components@.map_values(|c: String| c@),
            forall|k: int| 0 <= k < i ==> (#[trigger] hour_of_component(components@[k]@)) is Some,
            out@ == component_hour_buckets(time, texts.take(i as int)),
        decreases components@.len() - i,
    {
        match parse_hour_component(components[i].as_str()) {
            Some(h) => {
                out.push(TimeBucket::Hour(date, h));
                i = i + 1;
                assert(out@ =~= component_hour_buckets(time, texts.take(i as int)));
            },
            None => {
                return Err(QueryError::MalformedBucketComponent);
            },
        }
    }
    assert(texts.take(i as int) =~= texts);
    Ok(out)
}

/// The hour lookups that read a day: one for each hour bucket found under the
/// day, named by the tags of the day's child links, in their order. Refused
/// when a tag does not name an hour.
pub fn fetch_entries_by_day(time: FetchEntriesTime, hour_tags: &Vec<Vec<u8>>) -> (r: Result<
    Vec<TimeBucket>,
    QueryError,
>)
    ensures
        r is Ok <==> forall|i: int|
            0 <= i < hour_tags@.len() ==> (#[trigger] hour_of_tag(hour_tags@[i]@)) is Some,
        r matches Ok(v) ==> v@ == Seq::new(
            hour_tags@.len(),
            |i: int| TimeBucket::Hour(time.date(), hour_of_tag(hour_tags@[i]@)->Some_0),
        ),
        r is Err ==> r == Err::<Vec<TimeBucket>, QueryError>(QueryError::MalformedBucketComponent),
{
    let mut components: Vec<String> = Vec::new();
    let mut i: usize = 0;
    while i < hour_tags.len()
        invariant
            i <= hour_tags@.len(),
            components@.len() == i,
            forall|k: int|
                0 <= k < i ==> tag_component_text(hour_tags@[k]@) == Some(
                    #[trigger] components@[k]@,
                ),
        decreases hour_tags@.len() - i,
    {
        match decode_tag_component(&hour_tags[i]) {
            Some(text) => {
                components.push(text);
                i = i + 1;
            },
            None => {
                assert(hour_of_tag(hour_tags@[i as int]@) is None);
                return Err(QueryError::MalformedBucketComponent);
            },
        }
    }
    let r = hour_buckets_of_components(time, &components);
    proof {
        assert forall|k: int| 0 <= k < hour_tags@.len() implies #[trigger] hour_of_tag(
            hour_tags@[k]@,
        ) == hour_of_component(components@[k]@) by {
            assert(tag_component_text(hour_tags@[k]@) == Some(components@[k]@));
        }
        if r is Ok {
            assert(r->Ok_0@ =~= Seq::new(
                hour_tags@.len(),
                |k: int| TimeBucket::Hour(time.date(), hour_of_tag(hour_tags@[k]@)->Some_0),
            ));
        } else {
            let k = choose|k: int|
                0 <= k < components@.len() && !(#[trigger] hour_of_component(
                    components@[k]@,
                ) is Some);
            assert(!(hour_of_tag(hour_tags@[k]@) is Some));
        }
    }
    r
}

} // verus!
