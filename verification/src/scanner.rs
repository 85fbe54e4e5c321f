use vstd::prelude::*;
use crate::experiment::Experiment;

verus! {

/// The byte spelling `f`.
pub open spec fn byte_f() -> u8 {
    102u8
}

/// The byte spelling `n`.
pub open spec fn byte_n() -> u8 {
    110u8
}

/// The byte spelling a space.
pub open spec fn byte_space() -> u8 {
    32u8
}

/// The byte spelling `{`.
pub open spec fn byte_lbrace() -> u8 {
    123u8
}

/// The byte spelling a line feed.
pub open spec fn byte_newline() -> u8 {
    10u8
}

/// A function-signature keyword token `fn ` starts at position `i` of `s`.
pub open spec fn is_fn_at(s: Seq<u8>, i: int) -> bool {
    &&& 0 <= i
    &&& i + 3 <= s.len()
    &&& s[i] == byte_f()
    &&& s[i + 1] == byte_n()
    &&& s[i + 2] == byte_space()
}

/// The position of the first `{` at or after `j`, provided no line break
/// comes first: a signature's opening brace must sit on the same line as the
/// rest of the signature.
pub open spec fn brace_from(s: Seq<u8>, j: int) -> Option<int>
    decreases s.len() - j,
{
    if j < 0 || j >= s.len() {
        None
    } else if s[j] == byte_lbrace() {
        Some(j)
    } else if s[j] == byte_newline() {
        None
    } else {
        brace_from(s, j + 1)
    }
}

/// A found brace lies between the start of the search and the end of `s`.
pub proof fn lemma_brace_from_bounds(s: Seq<u8>, j: int)
    ensures
        brace_from(s, j) is Some ==> j <= brace_from(s, j)->0 < s.len(),
        brace_from(s, j) is Some ==> s[brace_from(s, j)->0] == byte_lbrace(),
    decreases s.len() - j,
{
    if 0 <= j < s.len() && s[j] != byte_lbrace() && s[j] != byte_newline() {
        lemma_brace_from_bounds(s, j + 1);
    }
}

/// Every mutation offset in `s` from position `p` on: each occurrence of the
/// signature opening — the `fn ` token with an opening brace later on the
/// same line — yields the position just past that brace, and the search goes
/// on after the brace, so that one opening is never reported twice.
pub open spec fn scan_from(s: Seq<u8>, p: int) -> Seq<int>
    decreases s.len() - p,
    when 0 <= p
    via scan_from_dec
{
    if p + 3 > s.len() {
        seq![]
    } else if is_fn_at(s, p) {
        match brace_from(s, p + 3) {
            Some(j) => seq![j + 1] + scan_from(s, j + 1),
            None => scan_from(s, p + 1),
        }
    } else {
        scan_from(s, p + 1)
    }
}

#[via_fn]
proof fn scan_from_dec(s: Seq<u8>, p: int) {
    lemma_brace_from_bounds(s, p + 3);
}

/// The mutation offsets of content `s`: one per discovered
/// function-signature opening, in textual order.
pub open spec fn scan_offsets(s: Seq<u8>) -> Seq<int> {
    scan_from(s, 0)
}

/// What it means for `o` to be a sound mutation offset of `s`, found at or
/// after position `p`: it points just past an opening brace, namely the
/// first `{` on the line of some `fn ` token at or after `p`.
pub open spec fn offset_ok(s: Seq<u8>, p: int, o: int) -> bool {
    &&& 1 <= o <= s.len()
    &&& s[o - 1] == byte_lbrace()
    &&& exists|i: int| #![auto] p <= i && is_fn_at(s, i) && brace_from(s, i + 3) == Some(o - 1)
}

/// An offset found at or after `p2` is also one found at or after any
/// earlier position `p`.
proof fn lemma_offset_ok_widen(s: Seq<u8>, p: int, p2: int, o: int)
    requires
        p <= p2,
        offset_ok(s, p2, o),
    ensures
        offset_ok(s, p, o),
{
    let i = choose|i: int| #![auto] p2 <= i && is_fn_at(s, i) && brace_from(s, i + 3) == Some(
        o - 1,
    );
    assert(p <= i && is_fn_at(s, i) && brace_from(s, i + 3) == Some(o - 1));
}

/// Offset correctness: every offset the scan yields points just past an
/// opening brace — the first `{` on the line of some `fn ` token — and
/// offsets come in strictly increasing textual order.
pub proof fn lemma_offsets_follow_brace(s: Seq<u8>, p: int)
    requires
        0 <= p,
    ensures
        forall|k: int| 0 <= k < scan_from(s, p).len() ==> offset_ok(
            s,
            p,
            #[trigger] scan_from(s, p)[k],
        ),
        forall|k: int| 0 <= k < scan_from(s, p).len() ==> #[trigger] scan_from(s, p)[k] >= p + 4,
        forall|k1: int, k2: int| 0 <= k1 < k2 < scan_from(s, p).len() ==> scan_from(s, p)[k1]
            < scan_from(s, p)[k2],
    decreases s.len() - p,
{
    if p + 3 > s.len() {
    } else if is_fn_at(s, p) {
        match brace_from(s, p + 3) {
            Some(j) => {
                lemma_brace_from_bounds(s, p + 3);
                lemma_offsets_follow_brace(s, j + 1);
                let cur = scan_from(s, p);
                let tail = scan_from(s, j + 1);
                assert(cur == seq![j + 1] + tail);
                assert(offset_ok(s, p, j + 1)) by {
                    assert(p <= p && is_fn_at(s, p) && brace_from(s, p + 3) == Some((j + 1) - 1));
                }
                assert forall|k: int| 0 <= k < cur.len() implies offset_ok(s, p, cur[k]) && cur[k]
                    >= p + 4 by {
                    if k == 0 {
                        assert(cur[0] == j + 1);
                    } else {
                        assert(cur[k] == tail[k - 1]);
                        lemma_offset_ok_widen(s, p, j + 1, cur[k]);
                        assert(cur[k] >= (j + 1) + 4);
                    }
                }
                assert forall|k1: int, k2: int| 0 <= k1 < k2 < cur.len() implies cur[k1]
                    < cur[k2] by {
                    if k1 == 0 {
                        assert(cur[k2] == tail[k2 - 1]);
                        assert(cur[k2] >= (j + 1) + 4);
                    } else {
                        assert(cur[k1] == tail[k1 - 1] && cur[k2] == tail[k2 - 1]);
                    }
                }
            },
            None => {
                lemma_offsets_follow_brace(s, p + 1);
                let cur = scan_from(s, p);
                assert(cur == scan_from(s, p + 1));
                assert forall|k: int| 0 <= k < cur.len() implies offset_ok(s, p, cur[k]) by {
                    lemma_offset_ok_widen(s, p, p + 1, cur[k]);
                }
            },
        }
    } else {
        lemma_offsets_follow_brace(s, p + 1);
        let cur = scan_from(s, p);
        assert(cur == scan_from(s, p + 1));
        assert forall|k: int| 0 <= k < cur.len() implies offset_ok(s, p, cur[k]) by {
            lemma_offset_ok_widen(s, p, p + 1, cur[k]);
        }
    }
}

/// Find the first `{` at or after `from`, giving up at a line break or at
/// the end of the text.
fn find_brace(text: &[u8], from: usize) -> (r: Option<usize>)
    requires
        from <= text@.len(),
    ensures
        match r {
            Some(j) => brace_from(text@, from as int) == Some(j as int),
            None => brace_from(text@, from as int) is None,
        },
{
    let mut j: usize = from;
    while j < text.len() && text[j] != 123u8 && text[j] != 10u8
        invariant
            from <= j <= text@.len(),
            brace_from(text@, from as int) == brace_from(text@, j as int),
        decreases text@.len() - j,
    {
        j = j + 1;
    }
    if j < text.len() && text[j] == 123u8 {
        Some(j)
    } else {
        None
    }
}

/// Scan raw text for function-signature openings — the `fn ` token with an
/// opening brace later on the same line — and return the byte offset just
/// past each matched brace, in textual order.
///
/// Each offset sits right after an ASCII `{` byte (`lemma_offsets_follow_brace`),
/// so in valid UTF-8 content it is always a safe splice boundary, never the
/// inside of a multi-byte character.
pub fn find_mutation_points(text: &[u8]) -> (r: Vec<usize>)
    ensures
        r@.map_values(|x: usize| x as int) == scan_offsets(text@),
        forall|k: int| 0 <= k < r@.len() ==> 1 <= #[trigger] r@[k] <= text@.len(),
{
    let mut r: Vec<usize> = Vec::new();
    let mut p: usize = 0;
    assert(r@.map_values(|x: usize| x as int) =~= Seq::<int>::empty());
    while p < text.len() && text.len() - p >= 3
        invariant
            0 <= p <= text@.len(),
            scan_offsets(text@) == r@.map_values(|x: usize| x as int) + scan_from(
                text@,
                p as int,
            ),
            forall|k: int| 0 <= k < r@.len() ==> 1 <= #[trigger] r@[k] <= text@.len(),
        decreases text@.len() - p,
    {
        if text[p] == 102u8 && text[p + 1] == 110u8 && text[p + 2] == 32u8 {
            match find_brace(text, p + 3) {
                Some(j) => {
                    proof {
                        lemma_brace_from_bounds(text@, p + 3);
                    }
                    r.push(j + 1);
                    assert(r@.map_values(|x: usize| x as int)
                        =~= r@.drop_last().map_values(|x: usize| x as int).push(j + 1));
                    p = j + 1;
                },
                None => {
                    p = p + 1;
                },
            }
        } else {
            p = p + 1;
        }
        assert(scan_offsets(text@) =~= r@.map_values(|x: usize| x as int) + scan_from(
            text@,
            p as int,
        ));
    }
    proof {
        assert(scan_from(text@, p as int) =~= Seq::<int>::empty());
        assert(scan_offsets(text@) =~= r@.map_values(|x: usize| x as int));
    }
    r
}

/// Scan determinism: the offsets of a piece of content are a function of its
/// bytes alone, so two scans of the same content yield the same list.
pub proof fn lemma_scan_deterministic(s: Seq<u8>, r1: Seq<int>, r2: Seq<int>)
    requires
        r1 == scan_offsets(s),
        r2 == scan_offsets(s),
    ensures
        r1 == r2,
{
}

/// The experiments a single source file gives rise to: one per mutation
/// offset of its content, in textual order, with no cost measured yet.
pub open spec fn experiments_for(path: String, c: Seq<u8>) -> Seq<Experiment> {
    Seq::new(
        scan_offsets(c).len(),
        |i: int| Experiment {
            path: path,
            offset: scan_offsets(c)[i] as usize,
            measured_cost: None,
        },
    )
}

/// Build the experiments for one source file from its path and raw content.
pub fn make_experiments(path: &String, contents: &[u8]) -> (r: Vec<Experiment>)
    ensures
        r@ == experiments_for(*path, contents@),
{
    let offsets = find_mutation_points(contents);
    let mut r: Vec<Experiment> = Vec::new();
    let mut i: usize = 0;
    while i < offsets.len()
        invariant
            i <= offsets@.len(),
            offsets@.map_values(|x: usize| x as int) == scan_offsets(contents@),
            forall|k: int| 0 <= k < offsets@.len()
                ==> 1 <= #[trigger] offsets@[k] <= contents@.len(),
            r@ == experiments_for(*path, contents@).take(i as int),
        decreases offsets@.len() - i,
    {
        let e = Experiment { path: path.clone(), offset: offsets[i], measured_cost: None };
        r.push(e);
        assert(r@ =~= experiments_for(*path, contents@).take(i + 1));
        i = i + 1;
    }
    assert(r@ =~= experiments_for(*path, contents@));
    r
}

/// One file of the scanned tree: its location and its raw content, in the
/// order the walk visited it.
pub struct SourceFile {
    /// Where the file lives.
    pub path: String,
    /// Its content at rest.
    pub contents: Vec<u8>,
}

/// The experiments of a whole tree of source files: the per-file experiment
/// lists, concatenated in visit order.
pub open spec fn experiments_of(files: Seq<SourceFile>) -> Seq<Experiment>
    decreases files.len(),
{
    if files.len() == 0 {
        seq![]
    } else {
        experiments_of(files.drop_last()) + experiments_for(
            files.last().path,
            files.last().contents@,
        )
    }
}

/// Scan determinism at the tree level: the experiments of an unchanged tree
/// of source files are a function of its paths and contents alone, so two
/// scans of the same tree yield the same ordered list.
pub proof fn lemma_tree_scan_deterministic(
    files: Seq<SourceFile>,
    r1: Seq<Experiment>,
    r2: Seq<Experiment>,
)
    requires
        r1 == experiments_of(files),
        r2 == experiments_of(files),
    ensures
        r1 == r2,
{
}

/// Build the experiments of a whole tree of source files, in visit order.
pub fn scan_tree(files: &Vec<SourceFile>) -> (r: Vec<Experiment>)
    ensures
        r@ == experiments_of(files@),
{
    let mut r: Vec<Experiment> = Vec::new();
    let mut i: usize = 0;
    assert(files@.take(0) =~= Seq::<SourceFile>::empty());
    while i < files.len()
        invariant
            i <= files@.len(),
            r@ == experiments_of(files@.take(i as int)),
        decreases files@.len() - i,
    {
        let f = &files[i];
        let mut es = make_experiments(&f.path, f.contents.as_slice());
        r.append(&mut es);
        proof {
            let pre = files@.take(i + 1);
            assert(pre.drop_last() =~= files@.take(i as int));
            assert(pre.last() == files@[i as int]);
        }
        i = i + 1;
    }
    assert(files@.take(files@.len() as int) =~= files@);
    r
}

/// Whether a file name carries the recognized source extension `rs`: it ends
/// in `.rs` and the dot is not the name's first byte, which would make the
/// whole name a hidden-file stem rather than a stem plus extension.
pub open spec fn is_rs_name(name: Seq<u8>) -> bool {
    &&& name.len() >= 4
    &&& name[name.len() - 3] == 46u8
    &&& name[name.len() - 2] == 114u8
    &&& name[name.len() - 1] == 115u8
}

/// Decide from a file name (the final path component) whether the scanner
/// takes the file.
pub fn is_rs_file(name: &[u8]) -> (r: bool)
    ensures
        r == is_rs_name(name@),
{
    let n = name.len();
    n >= 4 && name[n - 3] == 46u8 && name[n - 2] == 114u8 && name[n - 1] == 115u8
}

} // verus!
