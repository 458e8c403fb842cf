//! Grapheme segmentation and emoji recognition for one line of text.
//!
//! A line is split into extended grapheme clusters (so a flag or a
//! person-with-skin-tone sequence is one cluster, not its codepoints), and
//! each cluster is kept exactly when the static emoji registry knows it.

use crate::table::{key_views, FrequencyTable};
use unicode_segmentation::UnicodeSegmentation;
use vstd::prelude::*;

verus! {

/// The extended grapheme clusters of a character sequence, in order, as
/// the Unicode text-segmentation rules define them.
pub uninterp spec fn graphemes_of(s: Seq<char>) -> Seq<Seq<char>>;

/// Whether a grapheme cluster's text is in the static emoji registry.
pub uninterp spec fn is_emoji_grapheme(g: Seq<char>) -> bool;

/// Relies on unicode_segmentation's `UnicodeSegmentation::graphemes` in
/// extended mode: the extended grapheme clusters of the string, in order,
/// a function of the characters alone.
#[verifier::external_body]
fn split_graphemes(s: &str) -> (r: Vec<String>)
    ensures
        key_views(r@) == graphemes_of(s@),
{
    s.graphemes(true).map(|g| g.to_string()).collect()
}

/// Relies on `emojis::get`: a lookup in the crate's static emoji table,
/// a function of the cluster text alone.
#[verifier::external_body]
fn is_emoji(g: &str) -> (r: bool)
    ensures
        r == is_emoji_grapheme(g@),
{
    emojis::get(g).is_some()
}

/// The emoji grapheme clusters of a line, in left-to-right order.
pub open spec fn emoji_clusters(s: Seq<char>) -> Seq<Seq<char>> {
    graphemes_of(s).filter(|g: Seq<char>| is_emoji_grapheme(g))
}

/// Splits `line` into extended grapheme clusters and keeps exactly those
/// recognized as emoji, in left-to-right order.
pub fn extract_emojis(line: &str) -> (r: Vec<String>)
    ensures
        key_views(r@) == emoji_clusters(line@),
{
    let gs = split_graphemes(line);
    let n: usize = gs.len();
    let mut out: Vec<String> = Vec::new();
    let ghost pred = |g: Seq<char>| is_emoji_grapheme(g);
    let mut i: usize = 0;
    while i < n
        invariant
            i <= n,
            n == gs@.len(),
            key_views(gs@) == graphemes_of(line@),
            key_views(out@) == graphemes_of(line@).subrange(0, i as int).filter(pred),
            pred == (|g: Seq<char>| is_emoji_grapheme(g)),
        decreases n - i,
    {
        let ghost prefix = graphemes_of(line@).subrange(0, i as int);
        let ghost prefix1 = graphemes_of(line@).subrange(0, i + 1 as int);
        proof {
            assert(prefix1 =~= prefix.push(gs@[i as int]@));
            assert(prefix1.drop_last() =~= prefix);
            reveal_with_fuel(Seq::filter, 2);
        }
        if is_emoji(gs[i].as_str()) {
            out.push(gs[i].clone());
            proof {
                assert(key_views(out@) =~= prefix1.filter(pred));
            }
        } else {
            proof {
                assert(key_views(out@) =~= prefix1.filter(pred));
            }
        }
        i += 1;
    }
    proof {
        assert(graphemes_of(line@).subrange(0, n as int) =~= graphemes_of(line@));
    }
    out
}

/// Adds every emoji grapheme cluster of `line` to the table, provided the
/// new total still fits; returns whether the line was counted.  The counts
/// after a counted line depend only on the multiset of emoji clusters in
/// the line.
pub fn process_line(t: &mut FrequencyTable, line: &str) -> (r: bool)
    requires
        old(t).wf(),
    ensures
        final(t).wf(),
        r == (old(t).spec_total() + emoji_clusters(line@).len() <= usize::MAX as int),
        r ==> final(t).spec_total() == old(t).spec_total() + emoji_clusters(line@).len(),
        r ==> forall|k: Seq<char>|
            #[trigger] final(t).count_of(k) == old(t).count_of(k) + emoji_clusters(
                line@,
            ).to_multiset().count(k),
        !r ==> *final(t) == *old(t),
{
    let emo = extract_emojis(line);
    let total = t.total_count();
    if emo.len() <= usize::MAX - total {
        t.add_all(&emo);
        true
    } else {
        false
    }
}

} // verus!
