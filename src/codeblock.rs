//! Extraction of fenced BSL code regions from finished assistant text.
use vstd::prelude::*;
use crate::text::{views, chars_of, find_at, find_from, lemma_find_from_found, trimmed, trimmed_slice};

verus! {

/// The opening fence of a region tagged `bsl`.
pub open spec fn bsl_tag() -> Seq<char> {
    seq!['`', '`', '`', 'b', 's', 'l']
}

/// The opening fence of a region tagged `1c`, a synonym of `bsl`.
pub open spec fn onec_tag() -> Seq<char> {
    seq!['`', '`', '`', '1', 'c']
}

/// The bare fence that closes a region.
pub open spec fn fence() -> Seq<char> {
    seq!['`', '`', '`']
}

/// The trimmed regions opened by `tag` in `t`, scanning from index `i`: each
/// region runs from just after its opening fence to the next bare fence, and an
/// opening fence with no closing fence ends the scan.
pub open spec fn blocks_from(t: Seq<char>, tag: Seq<char>, i: int) -> Seq<Seq<char>>
    decreases t.len() - i via blocks_from_decreases
{
    match find_from(t, tag, i) {
        None => Seq::empty(),
        Some(s) => match find_from(t, fence(), s + tag.len()) {
            None => Seq::empty(),
            Some(e) => seq![trimmed(t.subrange(s + tag.len(), e))] + blocks_from(t, tag, e + 3),
        },
    }
}

#[via_fn]
proof fn blocks_from_decreases(t: Seq<char>, tag: Seq<char>, i: int) {
    if let Some(s) = find_from(t, tag, i) {
        lemma_find_from_found(t, tag, i);
        if let Some(e) = find_from(t, fence(), s + tag.len()) {
            lemma_find_from_found(t, fence(), s + tag.len());
        }
    }
}

/// All code regions of `t`: those tagged `bsl` in order of occurrence, then
/// those tagged `1c`.
pub open spec fn code_blocks(t: Seq<char>) -> Seq<Seq<char>> {
    blocks_from(t, bsl_tag(), 0) + blocks_from(t, onec_tag(), 0)
}

/// Appends to `blocks` the regions of `text` opened by `tag`.
fn scan_tag(text: &str, t: &Vec<char>, tag: &Vec<char>, blocks: &mut Vec<String>)
    requires
        t@ == text@,
        tag@.len() > 0,
    ensures
        views(final(blocks)@) == views(old(blocks)@) + blocks_from(t@, tag@, 0),
{
    proof {
        reveal_strlit("```");
    }
    let close = chars_of("```");
    assert(close@ =~= fence());
    let ghost init = views(blocks@);
    let mut pos: usize = 0;
    let n = t.len();
    assert(views(blocks@) + blocks_from(t@, tag@, 0) =~= init + blocks_from(t@, tag@, 0));
    loop
        invariant
            t@ == text@,
            close@ == fence(),
            pos <= t@.len(),
            n == t@.len(),
            views(blocks@) + blocks_from(t@, tag@, pos as int) == init + blocks_from(t@, tag@, 0),
        ensures
            views(blocks@) == init + blocks_from(t@, tag@, 0),
        decreases t@.len() - pos,
    {
        match find_at(t, tag, pos) {
            None => {
                assert(views(blocks@) =~= views(blocks@) + blocks_from(t@, tag@, pos as int));
                break ;
            },
            Some(s) => {
                proof {
                    lemma_find_from_found(t@, tag@, pos as int);
                }
                let a = s + tag.len();
                match find_at(t, &close, a) {
                    None => {
                        assert(views(blocks@) =~= views(blocks@) + blocks_from(
                            t@,
                            tag@,
                            pos as int,
                        ));
                        break ;
                    },
                    Some(e) => {
                        proof {
                            lemma_find_from_found(t@, fence(), a as int);
                        }
                        let code = trimmed_slice(text, a, e);
                        let ghost before = views(blocks@);
                        blocks.push(code);
                        assert(views(blocks@) =~= before.push(code@));
                        assert(before + blocks_from(t@, tag@, pos as int) =~= views(blocks@)
                            + blocks_from(t@, tag@, e + 3));
                        pos = e + 3;
                    },
                }
            },
        }
    }
}

/// The code regions of `text` fenced as `bsl` or `1c`, trimmed: first every
/// `bsl` region in order, then every `1c` region. The result depends on `text`
/// alone.
pub fn extract_bsl_code(text: &str) -> (r: Vec<String>)
    ensures
        views(r@) == code_blocks(text@),
{
    let t = chars_of(text);
    proof {
        reveal_strlit("```bsl");
        reveal_strlit("```1c");
    }
    let bsl = chars_of("```bsl");
    assert(bsl@ =~= bsl_tag());
    let onec = chars_of("```1c");
    assert(onec@ =~= onec_tag());
    let mut blocks: Vec<String> = Vec::new();
    scan_tag(text, &t, &bsl, &mut blocks);
    scan_tag(text, &t, &onec, &mut blocks);
    assert(views(blocks@) =~= code_blocks(text@));
    blocks
}

/// Extraction is a function of the text alone: two runs on the same text give
/// the same regions.
pub proof fn lemma_extraction_repeatable(text: &str, first: Vec<String>, second: Vec<String>)
    requires
        views(first@) == code_blocks(text@),
        views(second@) == code_blocks(text@),
    ensures
        views(first@) == views(second@),
{
}

} // verus!
