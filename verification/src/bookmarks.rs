//! The decisions behind the bookmark tag editor: the GUI shell reads the
//! current page, looks tags up in the bookmark store, prompts, and writes
//! tags back; what to show and what to store is decided here.

use vstd::prelude::*;

use crate::ext::{lowercase_str, lowercased, trim_str, trimmed};
use crate::urls::{first_index_of, lemma_first_index_of};

verus! {

/// `items` joined with `sep` between consecutive items.
pub open spec fn join_with(items: Seq<Seq<char>>, sep: Seq<char>) -> Seq<char>
    decreases items.len(),
{
    if items.len() == 0 {
        Seq::empty()
    } else if items.len() == 1 {
        items[0]
    } else {
        join_with(items.drop_last(), sep) + sep + items.last()
    }
}

/// `s` split on every occurrence of `c`: one piece more than there are
/// occurrences, each possibly empty, in order.
pub open spec fn spec_split(s: Seq<char>, c: char) -> Seq<Seq<char>>
    decreases s.len(),
    via spec_split_decreases
{
    let fi = first_index_of(s, c);
    if fi < s.len() {
        seq![s.take(fi)] + spec_split(s.skip(fi + 1), c)
    } else {
        seq![s]
    }
}

#[via_fn]
proof fn spec_split_decreases(s: Seq<char>, c: char) {
    lemma_first_index_of(s, c);
}

/// A raw tag normalized for storage: trimmed of surrounding whitespace and
/// lowercased.
pub open spec fn normalized_tag(t: Seq<char>) -> Seq<char> {
    lowercased(trimmed(t))
}

/// The tag list stored after the user's reply: the reply (empty when the
/// prompt was dismissed) split on commas, each piece trimmed and lowercased.
pub open spec fn reply_tags(reply: Seq<char>) -> Seq<Seq<char>> {
    spec_split(reply, ',').map_values(|t: Seq<char>| normalized_tag(t))
}

/// What the tag editor does next, once the stored tags of the current page
/// are known.
pub enum TagEditStep {
    /// The page has no stored tags: it is not in the bookmarks.
    NotInBookmarks,
    /// Prompt for tags, offering the stored ones as the default answer.
    Prompt(String),
}

fn join_tags(tags: &Vec<String>) -> (r: String)
    ensures
        r@ == join_with(tags.deep_view(), ", "@),
{
    let mut out = String::new();
    let n: usize = tags.len();
    let mut j: usize = 0;
    while j < n
        invariant
            j <= n,
            n == tags.deep_view().len(),
            n == tags@.len(),
            out@ == join_with(tags.deep_view().take(j as int), ", "@),
        decreases n - j,
    {
        if j > 0 {
            out.append(", ");
        }
        out.append(tags[j].as_str());
        proof {
            let dv = tags.deep_view();
            assert(dv.take(j + 1).drop_last() =~= dv.take(j as int));
            assert(dv.take(j + 1).last() == dv[j as int]);
            if j == 0 {
                assert(dv.take(1)[0] == dv[0]);
            }
            assert(out@ =~= join_with(dv.take(j + 1), ", "@));
        }
        j = j + 1;
    }
    proof {
        assert(tags.deep_view().take(n as int) =~= tags.deep_view());
    }
    out
}

fn normalize_tag(t: &str) -> (r: String)
    ensures
        r@ == normalized_tag(t@),
{
    let trimmed_tag: String = trim_str(t);
    lowercase_str(trimmed_tag.as_str())
}

/// The application's bookmark decisions, free of the GUI shell, the webview
/// and the bookmark store around them.
pub struct App {}

impl App {
    /// Decide the tag-editing step for the current page: with no stored tags
    /// the page is not in the bookmarks; otherwise prompt, offering the
    /// stored tags joined by a comma and a space as the default answer.
    pub fn edit_bookmark_tags(&self, tags: Option<Vec<String>>) -> (r: TagEditStep)
        ensures
            match tags {
                Some(ts) => r matches TagEditStep::Prompt(d) && d@ == join_with(
                    ts.deep_view(),
                    ", "@,
                ),
                None => r is NotInBookmarks,
            },
    {
        match tags {
            Some(ts) => TagEditStep::Prompt(join_tags(&ts)),
            None => TagEditStep::NotInBookmarks,
        }
    }

    /// The tags to store after the prompt comes back: the reply, or the empty
    /// string when it was dismissed, split on commas, each piece trimmed and
    /// lowercased.
    pub fn bookmark_tags_reply(&self, input: Option<String>) -> (r: Vec<String>)
        ensures
            r.deep_view() == reply_tags(
                match input {
                    Some(s) => s@,
                    None => Seq::empty(),
                },
            ),
    {
        let text: String = match input {
            Some(s) => s,
            None => String::new(),
        };
        split_normalized(text.as_str())
    }
}

fn split_normalized(s: &str) -> (r: Vec<String>)
    ensures
        r.deep_view() == reply_tags(s@),
{
    let len: usize = s.unicode_len();
    let mut out: Vec<String> = Vec::new();
    let ghost raw: Seq<Seq<char>> = Seq::empty();
    let mut raw_done: Ghost<Seq<Seq<char>>> = Ghost(raw);
    let mut start: usize = 0;
    let mut i: usize = 0;
    proof {
        assert(s@.skip(0) =~= s@);
    }
    while i < len
        invariant
            start <= i <= len,
            len == s@.len(),
            forall|j: int| start <= j < i ==> s@[j] != ',',
            out@.len() == raw_done@.len(),
            forall|k: int|
                0 <= k < out@.len() ==> (#[trigger] out@[k])@ == normalized_tag(raw_done@[k]),
            spec_split(s@, ',') == raw_done@ + spec_split(s@.skip(start as int), ','),
        decreases len - i,
    {
        if s.get_char(i) == ',' {
            let piece: &str = s.substring_char(start, i);
            let tag: String = normalize_tag(piece);
            out.push(tag);
            proof {
                let rest = s@.skip(start as int);
                lemma_first_index_of(rest, ',');
                assert forall|j: int| 0 <= j < i - start implies rest[j] != ',' by {
                    assert(rest[j] == s@[start + j]);
                }
                assert(rest[i - start] == s@[i as int]);
                assert(first_index_of(rest, ',') == i - start) by {
                    let fi = first_index_of(rest, ',');
                    if fi < i - start {
                        assert(rest[fi] == ',');
                    }
                    if fi > i - start {
                        assert(rest[i - start] != ',');
                    }
                }
                assert(rest.take(i - start) =~= s@.subrange(start as int, i as int));
                assert(rest.skip(i - start + 1) =~= s@.skip(i + 1));
                assert(spec_split(rest, ',') == seq![s@.subrange(start as int, i as int)]
                    + spec_split(s@.skip(i + 1), ','));
                raw_done@ = raw_done@ + seq![s@.subrange(start as int, i as int)];
                assert(spec_split(s@, ',') == raw_done@ + spec_split(s@.skip(i + 1), ','));
            }
            start = i + 1;
        }
        i = i + 1;
    }
    let piece: &str = s.substring_char(start, len);
    let tag: String = normalize_tag(piece);
    out.push(tag);
    proof {
        let rest = s@.skip(start as int);
        lemma_first_index_of(rest, ',');
        assert forall|j: int| 0 <= j < rest.len() implies rest[j] != ',' by {
            assert(rest[j] == s@[start + j]);
        }
        assert(first_index_of(rest, ',') == rest.len()) by {
            let fi = first_index_of(rest, ',');
            if fi < rest.len() {
                assert(rest[fi] == ',');
            }
        }
        assert(spec_split(rest, ',') == seq![rest]);
        assert(rest =~= s@.subrange(start as int, len as int));
        let done = raw_done@ + seq![rest];
        assert(spec_split(s@, ',') == done);
        assert forall|k: int| 0 <= k < out@.len() implies out.deep_view()[k] == done.map_values(
            |t: Seq<char>| normalized_tag(t),
        )[k] by {
            assert(out.deep_view()[k] == (out@[k])@);
            if k < done.len() - 1 {
                assert((out@[k])@ == normalized_tag(raw_done@[k]));
            }
        }
        assert(out.deep_view() =~= done.map_values(|t: Seq<char>| normalized_tag(t)));
    }
    out
}

} // verus!
