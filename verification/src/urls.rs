//! URL string utilities: stepping the first numeric token of a URL by a
//! signed offset, base-domain and host extraction, filename extraction, a
//! URL-likeness test, and local-path canonicalization.
//!
//! The numeric page token of a URL is found by scanning the query pairs left
//! to right first; only when no query value is numeric does the search fall
//! back to the path, where the rightmost numeric segment wins.

use vstd::prelude::*;

use crate::ext::{
    parse_url, percent_decode_str, percent_decoded, url_parse, UrlParts, UrlPartsModel,
};
use crate::num::{
    format_i32, parse_i32, spec_i32_string, spec_parse_i32, wrap_i32, wrapping_add_i32,
};

verus! {

/// View of an optional string.
pub open spec fn opt_view(r: Option<String>) -> Option<Seq<char>> {
    match r {
        Some(s) => Some(s@),
        None => None,
    }
}

/// Index of the first occurrence of `c` in `s`; `s.len()` when absent.
pub open spec fn first_index_of(s: Seq<char>, c: char) -> int
    decreases s.len(),
{
    if s.len() == 0 {
        0
    } else if s[0] == c {
        0
    } else {
        1 + first_index_of(s.drop_first(), c)
    }
}

pub proof fn lemma_first_index_of(s: Seq<char>, c: char)
    ensures
        0 <= first_index_of(s, c) <= s.len(),
        first_index_of(s, c) < s.len() ==> s[first_index_of(s, c)] == c,
        forall|j: int| 0 <= j < first_index_of(s, c) ==> s[j] != c,
    decreases s.len(),
{
    if s.len() > 0 && s[0] != c {
        lemma_first_index_of(s.drop_first(), c);
        assert forall|j: int| 0 <= j < first_index_of(s, c) implies s[j] != c by {
            if j > 0 {
                assert(s.drop_first()[j - 1] == s[j]);
            }
        }
    }
}

/// Index of the first query pair whose value is a numeric token.
pub open spec fn first_numeric_pair(pairs: Seq<(Seq<char>, Seq<char>)>) -> Option<int>
    decreases pairs.len(),
{
    if pairs.len() == 0 {
        None
    } else if spec_parse_i32(pairs[0].1) is Some {
        Some(0)
    } else {
        match first_numeric_pair(pairs.drop_first()) {
            Some(i) => Some(i + 1),
            None => None,
        }
    }
}

pub proof fn lemma_first_numeric_pair_at(q: Seq<(Seq<char>, Seq<char>)>, i: int)
    requires
        0 <= i < q.len(),
        spec_parse_i32(q[i].1) is Some,
        forall|j: int| 0 <= j < i ==> spec_parse_i32(#[trigger] q[j].1) is None,
    ensures
        first_numeric_pair(q) == Some(i),
    decreases q.len(),
{
    if i > 0 {
        assert(q.drop_first()[i - 1] == q[i]);
        assert forall|j: int| 0 <= j < i - 1 implies spec_parse_i32(
            #[trigger] q.drop_first()[j].1,
        ) is None by {
            assert(q.drop_first()[j] == q[j + 1]);
        }
        lemma_first_numeric_pair_at(q.drop_first(), i - 1);
    }
}

pub proof fn lemma_first_numeric_pair_none(q: Seq<(Seq<char>, Seq<char>)>)
    requires
        forall|j: int| 0 <= j < q.len() ==> spec_parse_i32(#[trigger] q[j].1) is None,
    ensures
        first_numeric_pair(q) is None,
    decreases q.len(),
{
    if q.len() > 0 {
        assert forall|j: int| 0 <= j < q.len() - 1 implies spec_parse_i32(
            #[trigger] q.drop_first()[j].1,
        ) is None by {
            assert(q.drop_first()[j] == q[j + 1]);
        }
        lemma_first_numeric_pair_none(q.drop_first());
    }
}

/// Index of the last path segment that is a numeric token.
pub open spec fn last_numeric_segment(segs: Seq<Seq<char>>) -> Option<int>
    decreases segs.len(),
{
    if segs.len() == 0 {
        None
    } else if spec_parse_i32(segs.last()) is Some {
        Some(segs.len() - 1)
    } else {
        last_numeric_segment(segs.drop_last())
    }
}

pub proof fn lemma_last_numeric_segment_at(ss: Seq<Seq<char>>, i: int)
    requires
        0 <= i < ss.len(),
        spec_parse_i32(ss[i]) is Some,
        forall|j: int| i < j < ss.len() ==> spec_parse_i32(#[trigger] ss[j]) is None,
    ensures
        last_numeric_segment(ss) == Some(i),
    decreases ss.len(),
{
    if i < ss.len() - 1 {
        assert(ss.drop_last()[i] == ss[i]);
        lemma_last_numeric_segment_at(ss.drop_last(), i);
    }
}

pub proof fn lemma_last_numeric_segment_none(ss: Seq<Seq<char>>)
    requires
        forall|j: int| 0 <= j < ss.len() ==> spec_parse_i32(#[trigger] ss[j]) is None,
    ensures
        last_numeric_segment(ss) is None,
    decreases ss.len(),
{
    if ss.len() > 0 {
        lemma_last_numeric_segment_none(ss.drop_last());
    }
}

/// The query string reassembled from decoded pairs: `key=value`, joined
/// with `&`.
pub open spec fn join_pairs(pairs: Seq<(Seq<char>, Seq<char>)>) -> Seq<char>
    decreases pairs.len(),
{
    if pairs.len() == 0 {
        Seq::empty()
    } else if pairs.len() == 1 {
        pairs[0].0 + seq!['='] + pairs[0].1
    } else {
        join_pairs(pairs.drop_last()) + seq!['&'] + pairs.last().0 + seq!['='] + pairs.last().1
    }
}

/// The path reassembled from its segments, each with a leading slash.
pub open spec fn join_segments(segs: Seq<Seq<char>>) -> Seq<char>
    decreases segs.len(),
{
    if segs.len() == 0 {
        Seq::empty()
    } else {
        join_segments(segs.drop_last()) + seq!['/'] + segs.last()
    }
}

/// The numeric token `t` stepped by `delta`, under 32-bit wrapping addition.
pub open spec fn stepped(t: Seq<char>, delta: int) -> Seq<char> {
    spec_i32_string(wrap_i32(spec_parse_i32(t)->0 + delta))
}

/// The path part of the transform: the rightmost numeric segment is stepped
/// and the path is reassembled onto the serialization before it.
pub open spec fn path_offset_spec(
    before_path: Seq<char>,
    segments: Option<Seq<Seq<char>>>,
    delta: int,
) -> Option<Seq<char>> {
    match segments {
        Some(segs) => match last_numeric_segment(segs) {
            Some(i) => Some(before_path + join_segments(segs.update(i, stepped(segs[i], delta)))),
            None => None,
        },
        None => None,
    }
}

/// What `offset` yields of a parsed URL: the first numeric query value is
/// stepped; with none, a numeric path segment is stepped and the query, if
/// any, is reattached unchanged; with no numeric token at all, nothing.
pub open spec fn offset_spec(parsed: Option<UrlPartsModel>, delta: int) -> Option<Seq<char>> {
    match parsed {
        Some(parts) => match parts.query {
            Some(q) => match first_numeric_pair(parts.pairs) {
                Some(i) => Some(
                    parts.before_query + join_pairs(
                        parts.pairs.update(
                            i,
                            (parts.pairs[i].0, stepped(parts.pairs[i].1, delta)),
                        ),
                    ),
                ),
                None => match path_offset_spec(parts.before_path, parts.segments, delta) {
                    Some(u) => Some(u + seq!['?'] + q),
                    None => None,
                },
            },
            None => path_offset_spec(parts.before_path, parts.segments, delta),
        },
        None => None,
    }
}

/// `s` with every trailing `?` removed.
pub open spec fn strip_query_marks(s: Seq<char>) -> Seq<char>
    decreases s.len(),
{
    if s.len() > 0 && s.last() == '?' {
        strip_query_marks(s.drop_last())
    } else {
        s
    }
}

proof fn lemma_join_pairs_step(q: Seq<(Seq<char>, Seq<char>)>, j: int)
    requires
        1 <= j <= q.len(),
    ensures
        j == 1 ==> join_pairs(q.take(j)) == q[0].0 + seq!['='] + q[0].1,
        j > 1 ==> join_pairs(q.take(j)) == join_pairs(q.take(j - 1)) + seq!['&'] + q[j - 1].0
            + seq!['='] + q[j - 1].1,
{
    assert(q.take(j).drop_last() =~= q.take(j - 1));
    assert(q.take(j).last() == q[j - 1]);
    if j == 1 {
        assert(q.take(1)[0] == q[0]);
    }
}

proof fn lemma_join_segments_step(ss: Seq<Seq<char>>, j: int)
    requires
        1 <= j <= ss.len(),
    ensures
        join_segments(ss.take(j)) == join_segments(ss.take(j - 1)) + seq!['/'] + ss[j - 1],
{
    assert(ss.take(j).drop_last() =~= ss.take(j - 1));
    assert(ss.take(j).last() == ss[j - 1]);
}

fn find_first_numeric(pairs: &Vec<(String, String)>) -> (r: Option<(usize, i32)>)
    ensures
        match r {
            Some(iv) => iv.0 < pairs.deep_view().len() && first_numeric_pair(pairs.deep_view())
                == Some(iv.0 as int) && spec_parse_i32(pairs.deep_view()[iv.0 as int].1) == Some(
                iv.1,
            ),
            None => first_numeric_pair(pairs.deep_view()) is None,
        },
{
    let n: usize = pairs.len();
    let mut j: usize = 0;
    while j < n
        invariant
            j <= n,
            n == pairs.deep_view().len(),
            n == pairs@.len(),
            forall|k: int| 0 <= k < j ==> spec_parse_i32(#[trigger] pairs.deep_view()[k].1) is None,
        decreases n - j,
    {
        let value: &String = &pairs[j].1;
        if let Some(v) = parse_i32(value.as_str()) {
            proof {
                lemma_first_numeric_pair_at(pairs.deep_view(), j as int);
            }
            return Some((j, v));
        }
        j = j + 1;
    }
    proof {
        lemma_first_numeric_pair_none(pairs.deep_view());
    }
    None
}

fn find_last_numeric(segs: &Vec<String>) -> (r: Option<(usize, i32)>)
    ensures
        match r {
            Some(iv) => iv.0 < segs.deep_view().len() && last_numeric_segment(segs.deep_view())
                == Some(iv.0 as int) && spec_parse_i32(segs.deep_view()[iv.0 as int]) == Some(
                iv.1,
            ),
            None => last_numeric_segment(segs.deep_view()) is None,
        },
{
    let n: usize = segs.len();
    let mut j: usize = n;
    while j > 0
        invariant
            j <= n,
            n == segs.deep_view().len(),
            n == segs@.len(),
            forall|k: int| j <= k < n ==> spec_parse_i32(#[trigger] segs.deep_view()[k]) is None,
        decreases j,
    {
        let segment: &String = &segs[j - 1];
        if let Some(v) = parse_i32(segment.as_str()) {
            proof {
                lemma_last_numeric_segment_at(segs.deep_view(), j - 1);
            }
            return Some((j - 1, v));
        }
        j = j - 1;
    }
    proof {
        lemma_last_numeric_segment_none(segs.deep_view());
    }
    None
}

fn rebuild_query(prefix: &String, pairs: &Vec<(String, String)>, idx: usize, replacement: &String) -> (out: String)
    requires
        idx < pairs.deep_view().len(),
    ensures
        out@ == prefix@ + join_pairs(
            pairs.deep_view().update(
                idx as int,
                (pairs.deep_view()[idx as int].0, replacement@),
            ),
        ),
{
    let ghost target = pairs.deep_view().update(
        idx as int,
        (pairs.deep_view()[idx as int].0, replacement@),
    );
    let mut out: String = prefix.clone();
    let n: usize = pairs.len();
    let mut j: usize = 0;
    while j < n
        invariant
            j <= n,
            idx < n,
            n == pairs.deep_view().len(),
            n == pairs@.len(),
            target == pairs.deep_view().update(
                idx as int,
                (pairs.deep_view()[idx as int].0, replacement@),
            ),
            out@ == prefix@ + join_pairs(target.take(j as int)),
        decreases n - j,
    {
        if j > 0 {
            out.push('&');
        }
        let pair: &(String, String) = &pairs[j];
        out.append(pair.0.as_str());
        out.push('=');
        if j == idx {
            out.append(replacement.as_str());
        } else {
            out.append(pair.1.as_str());
        }
        proof {
            lemma_join_pairs_step(target, j + 1);
            assert(out@ =~= prefix@ + join_pairs(target.take(j + 1)));
        }
        j = j + 1;
    }
    proof {
        assert(target.take(n as int) =~= target);
    }
    out
}

fn rebuild_path(prefix: &String, segs: &Vec<String>, idx: usize, replacement: &String) -> (out: String)
    requires
        idx < segs.deep_view().len(),
    ensures
        out@ == prefix@ + join_segments(segs.deep_view().update(idx as int, replacement@)),
{
    let ghost target = segs.deep_view().update(idx as int, replacement@);
    let mut out: String = prefix.clone();
    let n: usize = segs.len();
    let mut j: usize = 0;
    while j < n
        invariant
            j <= n,
            idx < n,
            n == segs.deep_view().len(),
            n == segs@.len(),
            target == segs.deep_view().update(idx as int, replacement@),
            out@ == prefix@ + join_segments(target.take(j as int)),
        decreases n - j,
    {
        out.push('/');
        if j == idx {
            out.append(replacement.as_str());
        } else {
            out.append(segs[j].as_str());
        }
        proof {
            lemma_join_segments_step(target, j + 1);
            assert(out@ =~= prefix@ + join_segments(target.take(j + 1)));
        }
        j = j + 1;
    }
    proof {
        assert(target.take(n as int) =~= target);
    }
    out
}

fn offset_path(before_path: &String, segments: &Option<Vec<String>>, delta: i32) -> (r: Option<
    String,
>)
    ensures
        opt_view(r) == path_offset_spec(
            before_path@,
            match segments {
                Some(segs) => Some(segs.deep_view()),
                None => None,
            },
            delta as int,
        ),
{
    match segments {
        Some(segs) => match find_last_numeric(segs) {
            Some((idx, v)) => {
                let replacement = format_i32(wrapping_add_i32(v, delta));
                Some(rebuild_path(before_path, segs, idx, &replacement))
            },
            None => None,
        },
        None => None,
    }
}

/// Step the first numeric token of an already decomposed URL by `delta`:
/// the whole transform on plain values, independent of the parser.
pub fn offset_parts(parts: &UrlParts, delta: i32) -> (r: Option<String>)
    ensures
        opt_view(r) == offset_spec(Some(parts@), delta as int),
{
    match &parts.query {
        Some(q) => match find_first_numeric(&parts.pairs) {
            Some((idx, v)) => {
                let replacement = format_i32(wrapping_add_i32(v, delta));
                Some(rebuild_query(&parts.before_query, &parts.pairs, idx, &replacement))
            },
            None => match offset_path(&parts.before_path, &parts.segments, delta) {
                Some(mut stepped_path) => {
                    stepped_path.push('?');
                    let out = stepped_path.concat(q.as_str());
                    proof {
                        assert(out@ =~= path_offset_spec(
                            parts@.before_path,
                            parts@.segments,
                            delta as int,
                        )->0 + seq!['?'] + q@);
                    }
                    Some(out)
                },
                None => None,
            },
        },
        None => offset_path(&parts.before_path, &parts.segments, delta),
    }
}

/// `s` with every trailing `?` removed, as `str::trim_end_matches('?')`
/// leaves it.
fn trim_query_marks(s: &str) -> (r: &str)
    ensures
        r@ == strip_query_marks(s@),
{
    let len: usize = s.unicode_len();
    let mut end: usize = len;
    proof {
        assert(s@.take(len as int) =~= s@);
    }
    while end > 0 && s.get_char(end - 1) == '?'
        invariant
            end <= len,
            len == s@.len(),
            strip_query_marks(s@) == strip_query_marks(s@.take(end as int)),
        decreases end,
    {
        proof {
            assert(s@.take(end as int).drop_last() =~= s@.take(end - 1));
            assert(s@.take(end as int).last() == s@[end - 1]);
        }
        end = end - 1;
    }
    proof {
        if end > 0 {
            assert(s@.take(end as int).last() == s@[end - 1]);
        }
        assert(strip_query_marks(s@.take(end as int)) == s@.take(end as int));
    }
    s.substring_char(0, end)
}

/// Step the first numeric token of `url` by `delta` and return the
/// reassembled URL; absent when the URL does not parse or holds no numeric
/// token. A trailing run of bare `?` marks is stripped before parsing.
/// Query values are scanned left to right and take priority; only when none
/// is numeric is the rightmost numeric path segment stepped, with the query
/// reattached unchanged. Stepping wraps on 32-bit overflow.
pub fn offset(url: &str, delta: i32) -> (r: Option<String>)
    ensures
        opt_view(r) == offset_spec(url_parse(strip_query_marks(url@)), delta as int),
{
    let stripped: &str = trim_query_marks(url);
    match parse_url(stripped) {
        Some(parts) => offset_parts(&parts, delta),
        None => None,
    }
}

/// Number of dots in `s`.
pub open spec fn dot_count(s: Seq<char>) -> nat
    decreases s.len(),
{
    if s.len() == 0 {
        0
    } else {
        dot_count(s.drop_last()) + if s.last() == '.' {
            1nat
        } else {
            0nat
        }
    }
}

proof fn lemma_dot_count_concat(a: Seq<char>, b: Seq<char>)
    ensures
        dot_count(a + b) == dot_count(a) + dot_count(b),
    decreases b.len(),
{
    if b.len() == 0 {
        assert(a + b =~= a);
    } else {
        assert((a + b).drop_last() =~= a + b.drop_last());
        assert((a + b).last() == b.last());
        lemma_dot_count_concat(a, b.drop_last());
    }
}

proof fn lemma_dot_count_no_dots(s: Seq<char>)
    requires
        forall|j: int| 0 <= j < s.len() ==> s[j] != '.',
    ensures
        dot_count(s) == 0,
    decreases s.len(),
{
    if s.len() > 0 {
        lemma_dot_count_no_dots(s.drop_last());
    }
}

/// Past the first dot there is one dot fewer.
proof fn lemma_dot_count_skip(h: Seq<char>)
    requires
        dot_count(h) > 0,
    ensures
        first_index_of(h, '.') < h.len(),
        dot_count(h.skip(first_index_of(h, '.') + 1)) == dot_count(h) - 1,
{
    lemma_first_index_of(h, '.');
    let fi = first_index_of(h, '.');
    if fi == h.len() {
        lemma_dot_count_no_dots(h);
        assert(false);
    }
    assert(h =~= h.take(fi + 1) + h.skip(fi + 1));
    lemma_dot_count_concat(h.take(fi + 1), h.skip(fi + 1));
    assert(h.take(fi + 1).drop_last() =~= h.take(fi));
    assert(h.take(fi + 1).last() == h[fi]);
    assert forall|j: int| 0 <= j < h.take(fi).len() implies h.take(fi)[j] != '.' by {
        assert(h.take(fi)[j] == h[j]);
    }
    lemma_dot_count_no_dots(h.take(fi));
}

/// A host reduced to its base domain: leading labels are stripped until at
/// most one dot remains.
pub open spec fn base_of_host(h: Seq<char>) -> Seq<char>
    decreases dot_count(h),
    via base_of_host_decreases
{
    if dot_count(h) <= 1 {
        h
    } else {
        base_of_host(h.skip(first_index_of(h, '.') + 1))
    }
}

#[via_fn]
proof fn base_of_host_decreases(h: Seq<char>) {
    if dot_count(h) > 1 {
        lemma_dot_count_skip(h);
    }
}

/// A base domain never keeps more than one dot.
pub proof fn lemma_base_of_host_dots(h: Seq<char>)
    ensures
        dot_count(base_of_host(h)) <= 1,
    decreases dot_count(h),
{
    if dot_count(h) > 1 {
        lemma_dot_count_skip(h);
        lemma_base_of_host_dots(h.skip(first_index_of(h, '.') + 1));
    }
}

fn count_dots(s: &str) -> (n: usize)
    ensures
        n as nat == dot_count(s@),
{
    let len: usize = s.unicode_len();
    let mut n: usize = 0;
    let mut i: usize = 0;
    while i < len
        invariant
            i <= len,
            n <= i,
            len == s@.len(),
            n as nat == dot_count(s@.take(i as int)),
        decreases len - i,
    {
        proof {
            assert(s@.take(i + 1).drop_last() =~= s@.take(i as int));
            assert(s@.take(i + 1).last() == s@[i as int]);
        }
        if s.get_char(i) == '.' {
            n = n + 1;
        }
        i = i + 1;
    }
    proof {
        assert(s@.take(len as int) =~= s@);
    }
    n
}

fn find_dot(s: &str) -> (i: usize)
    ensures
        i as int == first_index_of(s@, '.'),
{
    let len: usize = s.unicode_len();
    let mut i: usize = 0;
    while i < len
        invariant
            i <= len,
            len == s@.len(),
            forall|j: int| 0 <= j < i ==> s@[j] != '.',
        decreases len - i,
    {
        if s.get_char(i) == '.' {
            proof {
                lemma_first_index_of(s@, '.');
            }
            return i;
        }
        i = i + 1;
    }
    proof {
        lemma_first_index_of(s@, '.');
    }
    len
}

/// The base URL (domain and top level) of `url`: its host with leading
/// subdomain labels stripped until at most one dot remains, the empty string
/// when the URL has no host; absent when the URL does not parse.
pub fn get_base_url(url: &str) -> (r: Option<String>)
    ensures
        opt_view(r) == match url_parse(url@) {
            Some(m) => Some(
                base_of_host(
                    match m.host {
                        Some(h) => h,
                        None => Seq::empty(),
                    },
                ),
            ),
            None => None,
        },
{
    match parse_url(url) {
        Some(parts) => match parts.host {
            Some(h) => Some(base_domain(h.as_str())),
            None => Some(String::new()),
        },
        None => None,
    }
}

/// The base domain of a host name: leading subdomain labels are stripped
/// until at most one dot remains.
pub fn base_domain(host_name: &str) -> (r: String)
    ensures
        r@ == base_of_host(host_name@),
{
    let ghost h0 = host_name@;
    let mut base: String = String::from_str(host_name);
    let mut dots: usize = count_dots(base.as_str());
    while dots > 1
        invariant
            dots as nat == dot_count(base@),
            base_of_host(h0) == base_of_host(base@),
        decreases dots,
    {
        proof {
            lemma_dot_count_skip(base@);
        }
        let fi: usize = find_dot(base.as_str());
        let len: usize = base.as_str().unicode_len();
        let next: String = String::from_str(base.as_str().substring_char(fi + 1, len));
        proof {
            assert(next@ =~= base@.skip(fi + 1));
        }
        base = next;
        dots = count_dots(base.as_str());
    }
    base
}

/// The host of `url`, absent when the URL does not parse or has no host.
pub fn host(url: &str) -> (r: Option<String>)
    ensures
        opt_view(r) == match url_parse(url@) {
            Some(m) => m.host,
            None => None,
        },
{
    match parse_url(url) {
        Some(parts) => parts.host,
        None => None,
    }
}

/// The percent-decoded last path segment of `url`; absent when the URL does
/// not parse, has no path segments, or the segment does not decode to UTF-8.
pub fn get_filename(url: &str) -> (r: Option<String>)
    ensures
        opt_view(r) == match url_parse(url@) {
            Some(m) => match m.segments {
                Some(segs) => if segs.len() > 0 {
                    percent_decoded(segs.last())
                } else {
                    None
                },
                None => None,
            },
            None => None,
        },
{
    match parse_url(url) {
        Some(parts) => match parts.segments {
            Some(segs) => {
                if segs.len() > 0 {
                    let last: &String = &segs[segs.len() - 1];
                    percent_decode_str(last.as_str())
                } else {
                    None
                }
            },
            None => None,
        },
        None => None,
    }
}

fn contains_char(s: &str, c: char) -> (r: bool)
    ensures
        r == s@.contains(c),
{
    let len: usize = s.unicode_len();
    let mut i: usize = 0;
    while i < len
        invariant
            i <= len,
            len == s@.len(),
            forall|j: int| 0 <= j < i ==> s@[j] != c,
        decreases len - i,
    {
        if s.get_char(i) == c {
            return true;
        }
        i = i + 1;
    }
    false
}

/// Whether `input` looks like a URL: it parses as one, or prefixing it with
/// `http://` makes it parse while the input holds a dot or a colon, or it is
/// exactly `localhost`.
pub fn is_url(input: &str) -> (r: bool)
    ensures
        r == (url_parse(input@) is Some || (url_parse("http://"@ + input@) is Some && (
        input@.contains('.') || input@.contains(':'))) || input@ == "localhost"@),
{
    if parse_url(input).is_some() {
        return true;
    }
    let prefixed: String = String::from_str("http://").concat(input);
    if parse_url(prefixed.as_str()).is_some() {
        if contains_char(input, '.') || contains_char(input, ':') {
            return true;
        }
    }
    let given: String = String::from_str(input);
    let name: String = String::from_str("localhost");
    given == name
}

/// The file-URL form of a local path, or the input unchanged. The shell
/// resolves the input against the working directory; when that names an
/// existing file it passes the absolute path as `resolved`, and the result
/// wraps it as a `file://` URL. With no resolved path the input comes back
/// as it was.
pub fn canonicalize_url(url: &str, resolved: Option<&str>) -> (r: String)
    ensures
        match resolved {
            Some(p) => r@ == "file://"@ + p@,
            None => r@ == url@,
        },
{
    match resolved {
        Some(p) => {
            let out: String = String::from_str("file://").concat(p);
            out
        },
        None => String::from_str(url),
    }
}

/// With a query present and exactly one numeric value among its pairs,
/// stepping the URL rewrites that one value to the numeral of its stepped
/// value and reassembles everything else, before and after, unchanged.
pub proof fn lemma_offset_unique_numeric_query(p: UrlPartsModel, delta: int, i: int)
    requires
        p.query is Some,
        0 <= i < p.pairs.len(),
        spec_parse_i32(p.pairs[i].1) is Some,
        forall|j: int|
            0 <= j < p.pairs.len() && j != i ==> spec_parse_i32(#[trigger] p.pairs[j].1) is None,
        i32::MIN <= spec_parse_i32(p.pairs[i].1)->0 + delta <= i32::MAX,
    ensures
        offset_spec(Some(p), delta) == Some(
            p.before_query + join_pairs(
                p.pairs.update(
                    i,
                    (p.pairs[i].0, spec_i32_string(spec_parse_i32(p.pairs[i].1)->0 + delta)),
                ),
            ),
        ),
{
    lemma_first_numeric_pair_at(p.pairs, i);
}

/// With no query and exactly one numeric path segment, stepping the URL
/// rewrites that segment to the numeral of its stepped value and keeps every
/// other segment verbatim, in order.
pub proof fn lemma_offset_unique_numeric_path(p: UrlPartsModel, delta: int, i: int)
    requires
        p.query is None,
        p.segments is Some,
        0 <= i < p.segments->0.len(),
        spec_parse_i32(p.segments->0[i]) is Some,
        forall|j: int|
            0 <= j < p.segments->0.len() && j != i ==> spec_parse_i32(
                #[trigger] p.segments->0[j],
            ) is None,
        i32::MIN <= spec_parse_i32(p.segments->0[i])->0 + delta <= i32::MAX,
    ensures
        offset_spec(Some(p), delta) == Some(
            p.before_path + join_segments(
                p.segments->0.update(
                    i,
                    spec_i32_string(spec_parse_i32(p.segments->0[i])->0 + delta),
                ),
            ),
        ),
{
    lemma_last_numeric_segment_at(p.segments->0, i);
}

/// Stepping a numeric token by zero keeps its value: the replacement numeral
/// parses back to exactly the value of the original token.
pub proof fn lemma_step_zero_keeps_value(t: Seq<char>)
    requires
        spec_parse_i32(t) is Some,
    ensures
        stepped(t, 0) == spec_i32_string(spec_parse_i32(t)->0 as int),
        spec_parse_i32(stepped(t, 0)) == spec_parse_i32(t),
{
    crate::num::lemma_format_parse_roundtrip(spec_parse_i32(t)->0);
}

/// Stepping by zero, with the chosen numeric query value already in canonical
/// decimal form, reassembles the URL with every pair unchanged.
pub proof fn lemma_offset_zero_query(p: UrlPartsModel, i: int)
    requires
        p.query is Some,
        0 <= i < p.pairs.len(),
        first_numeric_pair(p.pairs) == Some(i),
        spec_parse_i32(p.pairs[i].1) is Some,
        p.pairs[i].1 == spec_i32_string(spec_parse_i32(p.pairs[i].1)->0 as int),
    ensures
        offset_spec(Some(p), 0) == Some(p.before_query + join_pairs(p.pairs)),
{
    lemma_step_zero_keeps_value(p.pairs[i].1);
    assert(p.pairs[i] == (p.pairs[i].0, p.pairs[i].1));
    assert(p.pairs.update(i, (p.pairs[i].0, stepped(p.pairs[i].1, 0))) =~= p.pairs);
}

/// Stepping by zero, with the chosen numeric path segment already in
/// canonical decimal form, reassembles the URL with every segment unchanged.
pub proof fn lemma_offset_zero_path(p: UrlPartsModel, i: int)
    requires
        p.query is None,
        p.segments is Some,
        0 <= i < p.segments->0.len(),
        last_numeric_segment(p.segments->0) == Some(i),
        spec_parse_i32(p.segments->0[i]) is Some,
        p.segments->0[i] == spec_i32_string(spec_parse_i32(p.segments->0[i])->0 as int),
    ensures
        offset_spec(Some(p), 0) == Some(p.before_path + join_segments(p.segments->0)),
{
    lemma_step_zero_keeps_value(p.segments->0[i]);
    assert(p.segments->0.update(i, stepped(p.segments->0[i], 0)) =~= p.segments->0);
}

} // verus!
