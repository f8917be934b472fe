//! Splitting raw paths into segments and joining segments back into a path.

use vstd::prelude::*;

verus! {

/// The character that separates the segments of a path.
pub open spec fn is_separator(c: char) -> bool {
    c == '/'
}

/// The text of each string of `v`, in order.
pub open spec fn texts(v: Seq<String>) -> Seq<Seq<char>> {
    Seq::new(v.len(), |i: int| v[i]@)
}

/// The position of the first separator of `s` at or after `i`, or the length
/// of `s` if there is none.
pub open spec fn next_separator(s: Seq<char>, i: int) -> int
    decreases s.len() - i,
{
    if i >= s.len() {
        s.len() as int
    } else if is_separator(s[i]) {
        i
    } else {
        next_separator(s, i + 1)
    }
}

/// The non-empty components of `s` from position `i` on, where components are
/// the maximal runs of characters between separators.
pub open spec fn split_from(s: Seq<char>, i: int) -> Seq<Seq<char>>
    decreases s.len() - i,
{
    if i < 0 || i >= s.len() {
        Seq::empty()
    } else {
        let k = next_separator(s, i);
        let rest = if i <= k < s.len() {
            split_from(s, k + 1)
        } else {
            Seq::empty()
        };
        if i < k <= s.len() {
            seq![s.subrange(i, k)] + rest
        } else {
            rest
        }
    }
}

/// The segments of the raw path `s`: its components between separators, with
/// the empty ones left out.
pub open spec fn split_path_spec(s: Seq<char>) -> Seq<Seq<char>> {
    split_from(s, 0)
}

/// The segments joined into one path, with one separator between neighbours.
pub open spec fn join_spec(segments: Seq<Seq<char>>) -> Seq<char>
    decreases segments.len(),
{
    if segments.len() == 0 {
        Seq::empty()
    } else if segments.len() == 1 {
        segments[0]
    } else {
        segments[0] + seq!['/'] + join_spec(segments.drop_first())
    }
}

/// A segment as `split_path` produces it: not empty and free of separators.
pub open spec fn is_clean_segment(t: Seq<char>) -> bool {
    t.len() > 0 && forall|i: int| 0 <= i < t.len() ==> !is_separator(#[trigger] t[i])
}

/// A path in canonical form: no leading, trailing or doubled separator.
pub open spec fn is_canonical(s: Seq<char>) -> bool {
    &&& s.len() > 0 ==> !is_separator(s[0]) && !is_separator(s[s.len() - 1])
    &&& forall|i: int|
        0 <= i && i + 1 < s.len() ==> !(is_separator(#[trigger] s[i]) && is_separator(s[i + 1]))
}

/// `next_separator` lands between `i` and the end, on a separator unless at
/// the end, and passes over no separator.
pub proof fn lemma_next_separator(s: Seq<char>, i: int)
    requires
        0 <= i <= s.len(),
    ensures
        i <= next_separator(s, i) <= s.len(),
        next_separator(s, i) < s.len() ==> is_separator(s[next_separator(s, i)]),
        forall|j: int| i <= j < next_separator(s, i) ==> !is_separator(#[trigger] s[j]),
    decreases s.len() - i,
{
    if i < s.len() && !is_separator(s[i]) {
        lemma_next_separator(s, i + 1);
    }
}

/// Within a run free of separators, every position has the same next
/// separator.
pub proof fn lemma_next_separator_within(s: Seq<char>, i: int, j: int)
    requires
        0 <= i <= j <= s.len(),
        forall|k: int| i <= k < j ==> !is_separator(#[trigger] s[k]),
    ensures
        next_separator(s, i) == next_separator(s, j),
    decreases j - i,
{
    if i < j {
        lemma_next_separator_within(s, i + 1, j);
    }
}

/// Every segment that splitting yields is clean.
pub proof fn lemma_split_from_clean(s: Seq<char>, i: int)
    requires
        0 <= i,
    ensures
        forall|n: int|
            0 <= n < split_from(s, i).len() ==> is_clean_segment(#[trigger] split_from(s, i)[n]),
    decreases s.len() - i,
{
    if i < s.len() {
        lemma_next_separator(s, i);
        let k = next_separator(s, i);
        if k < s.len() {
            lemma_split_from_clean(s, k + 1);
        }
        if k > i {
            let head = s.subrange(i, k);
            let rest = if k < s.len() {
                split_from(s, k + 1)
            } else {
                Seq::empty()
            };
            assert(is_clean_segment(head));
            assert forall|n: int| 0 <= n < split_from(s, i).len() implies is_clean_segment(
                #[trigger] split_from(s, i)[n],
            ) by {
                assert(split_from(s, i) == seq![head] + rest);
            }
        }
    }
}

/// Splits a raw path at its separators and leaves out the empty components,
/// so that leading, trailing and doubled separators are tolerated.
pub fn split_path(p: &str) -> (segments: Vec<String>)
    ensures
        texts(segments@) == split_path_spec(p@),
{
    let n: usize = p.unicode_len();
    let mut segments: Vec<String> = Vec::new();
    let mut start: usize = 0;
    while start < n
        invariant_except_break
            start <= n,
            texts(segments@) + split_from(p@, start as int) == split_path_spec(p@),
        invariant
            n == p@.len(),
        ensures
            texts(segments@) == split_path_spec(p@),
        decreases n - start,
    {
        let mut end: usize = start;
        while end < n && p.get_char(end) != '/'
            invariant
                n == p@.len(),
                start <= end <= n,
                forall|k: int| start <= k < end ==> !is_separator(#[trigger] p@[k]),
            decreases n - end,
        {
            end += 1;
        }
        proof {
            lemma_next_separator_within(p@, start as int, end as int);
        }
        let ghost before = texts(segments@);
        if end > start {
            let piece = p.substring_char(start, end).to_owned();
            segments.push(piece);
        }
        if end == n {
            break;
        }
        assert(texts(segments@) + split_from(p@, end + 1) =~= before + split_from(
            p@,
            start as int,
        ));
        start = end + 1;
    }
    segments
}

/// Joining with one more segment at the end appends a separator and that
/// segment, or the segment alone where it is the first.
pub proof fn lemma_join_push(segments: Seq<Seq<char>>, last: Seq<char>)
    ensures
        join_spec(segments.push(last)) == if segments.len() == 0 {
            last
        } else {
            join_spec(segments) + seq!['/'] + last
        },
    decreases segments.len(),
{
    if segments.len() > 0 {
        let tail = segments.drop_first();
        assert(segments.push(last).drop_first() =~= tail.push(last));
        lemma_join_push(tail, last);
    }
}

/// Joins the segments into one path, with `/` between neighbours.
pub fn join_path(segments: &Vec<String>) -> (joined: String)
    ensures
        joined@ == join_spec(texts(segments@)),
{
    let mut joined = String::new();
    let mut i: usize = 0;
    while i < segments.len()
        invariant
            i <= segments.len(),
            joined@ == join_spec(texts(segments@).subrange(0, i as int)),
        decreases segments.len() - i,
    {
        let ghost done = texts(segments@).subrange(0, i as int);
        proof {
            reveal_strlit("/");
            lemma_join_push(done, segments@[i as int]@);
            assert(texts(segments@).subrange(0, i + 1) =~= done.push(segments@[i as int]@));
        }
        if i > 0 {
            joined.append("/");
        }
        joined.append(segments[i].as_str());
        i += 1;
    }
    assert(texts(segments@).subrange(0, i as int) =~= texts(segments@));
    joined
}

/// Behind a prefix, the next separator lies where it lies without the
/// prefix, moved by the length of the prefix.
pub proof fn lemma_next_separator_shift(prefix: Seq<char>, s: Seq<char>, i: int)
    requires
        0 <= i <= s.len(),
    ensures
        next_separator(prefix + s, prefix.len() + i) == prefix.len() + next_separator(s, i),
    decreases s.len() - i,
{
    if i < s.len() && !is_separator(s[i]) {
        lemma_next_separator_shift(prefix, s, i + 1);
    }
}

/// Splitting behind a prefix yields what splitting without the prefix
/// yields.
pub proof fn lemma_split_shift(prefix: Seq<char>, s: Seq<char>, i: int)
    requires
        0 <= i <= s.len(),
    ensures
        split_from(prefix + s, prefix.len() + i) == split_from(s, i),
    decreases s.len() - i,
{
    if i < s.len() {
        lemma_next_separator_shift(prefix, s, i);
        lemma_next_separator(s, i);
        let k = next_separator(s, i);
        if k < s.len() {
            lemma_split_shift(prefix, s, k + 1);
        }
        assert((prefix + s).subrange(prefix.len() + i, prefix.len() + k) =~= s.subrange(i, k));
    }
}

/// Splitting undoes joining: clean segments, joined and split again, are
/// the same segments.
pub proof fn lemma_split_of_join(segments: Seq<Seq<char>>)
    requires
        forall|n: int| 0 <= n < segments.len() ==> is_clean_segment(#[trigger] segments[n]),
    ensures
        split_path_spec(join_spec(segments)) == segments,
    decreases segments.len(),
{
    let joined = join_spec(segments);
    if segments.len() == 1 {
        lemma_next_separator_within(joined, 0, joined.len() as int);
        assert(joined.subrange(0, joined.len() as int) =~= segments[0]);
    } else if segments.len() > 1 {
        let head = segments[0];
        let tail = segments.drop_first();
        assert forall|n: int| 0 <= n < tail.len() implies is_clean_segment(#[trigger] tail[n]) by {
            assert(tail[n] == segments[n + 1]);
        }
        lemma_split_of_join(tail);
        lemma_split_shift(head + seq!['/'], join_spec(tail), 0);
        assert forall|k: int| 0 <= k < head.len() implies !is_separator(#[trigger] joined[k]) by {
            assert(joined[k] == head[k]);
        }
        lemma_next_separator_within(joined, 0, head.len() as int);
        assert(joined.subrange(0, head.len() as int) =~= head);
    }
}

/// Joining undoes splitting on canonical paths: a path without leading,
/// trailing or doubled separators, split and joined again, is the same path.
pub proof fn lemma_join_of_split(s: Seq<char>)
    requires
        is_canonical(s),
    ensures
        join_spec(split_path_spec(s)) == s,
    decreases s.len(),
{
    if s.len() > 0 {
        lemma_next_separator(s, 0);
        let k = next_separator(s, 0);
        if k < s.len() {
            let rest = s.subrange(k + 1, s.len() as int);
            let prefix = s.subrange(0, k + 1);
            assert(s =~= prefix + rest);
            assert(is_canonical(rest)) by {
                assert forall|i: int| 0 <= i && i + 1 < rest.len() implies !(is_separator(
                    #[trigger] rest[i],
                ) && is_separator(rest[i + 1])) by {
                    assert(rest[i] == s[k + 1 + i]);
                }
            }
            lemma_join_of_split(rest);
            lemma_split_shift(prefix, rest, 0);
            let pieces = split_from(rest, 0);
            assert((seq![s.subrange(0, k)] + pieces).drop_first() =~= pieces);
        }
    }
}

/// Joined clean segments form a canonical path.
pub proof fn lemma_join_is_canonical(segments: Seq<Seq<char>>)
    requires
        forall|n: int| 0 <= n < segments.len() ==> is_clean_segment(#[trigger] segments[n]),
    ensures
        is_canonical(join_spec(segments)),
    decreases segments.len(),
{
    if segments.len() > 1 {
        let tail = segments.drop_first();
        assert forall|n: int| 0 <= n < tail.len() implies is_clean_segment(#[trigger] tail[n]) by {
            assert(tail[n] == segments[n + 1]);
        }
        lemma_join_is_canonical(tail);
        assert(is_clean_segment(tail[0]));
    }
}

/// Splitting a raw path and joining the segments yields its canonical form:
/// a canonical path with the same segments.
pub proof fn lemma_canonical_form(s: Seq<char>)
    ensures
        is_canonical(join_spec(split_path_spec(s))),
        split_path_spec(join_spec(split_path_spec(s))) == split_path_spec(s),
{
    lemma_split_from_clean(s, 0);
    lemma_join_is_canonical(split_path_spec(s));
    lemma_split_of_join(split_path_spec(s));
}

/// Whether two lists of strings hold the same texts in the same order.
pub fn same_texts(left: &Vec<String>, right: &Vec<String>) -> (same: bool)
    ensures
        same == (texts(left@) == texts(right@)),
{
    if left.len() != right.len() {
        assert(texts(left@).len() != texts(right@).len());
        return false;
    }
    let mut i: usize = 0;
    while i < left.len()
        invariant
            i <= left.len(),
            left.len() == right.len(),
            forall|k: int| 0 <= k < i ==> left@[k]@ == right@[k]@,
        decreases left.len() - i,
    {
        if left[i] != right[i] {
            assert(texts(left@)[i as int] != texts(right@)[i as int]);
            return false;
        }
        i += 1;
    }
    assert(texts(left@) =~= texts(right@));
    true
}

} // verus!
