use vstd::prelude::*;

verus! {

/// The no-op statement spliced in just after a function's opening brace: a
/// value-discarding literal statement, syntactically valid at any statement
/// position.  Its two bytes spell `0;`.
pub open spec fn noop_bytes() -> Seq<u8> {
    seq![48u8, 59u8]
}

/// The mutated copy of content `c`: the first `k` bytes of `c`, then the
/// no-op statement, then the remaining bytes of `c`.
pub open spec fn mutated_content(c: Seq<u8>, k: int) -> Seq<u8> {
    c.subrange(0, k) + noop_bytes() + c.subrange(k, c.len() as int)
}

/// Mutation correctness: the mutated copy is exactly the original with the
/// no-op spliced in at `k` — its length grows by the no-op's length, its
/// first `k` bytes are the original's, the no-op follows, and the rest is
/// the original's tail.
pub proof fn lemma_mutation_shape(c: Seq<u8>, k: int)
    requires
        0 <= k <= c.len(),
    ensures
        mutated_content(c, k).len() == c.len() + noop_bytes().len(),
        mutated_content(c, k).subrange(0, k) == c.subrange(0, k),
        mutated_content(c, k).subrange(k, k + noop_bytes().len()) == noop_bytes(),
        mutated_content(c, k).subrange(
            k + noop_bytes().len(),
            mutated_content(c, k).len() as int,
        ) == c.subrange(k, c.len() as int),
{
    assert(mutated_content(c, k).subrange(0, k) =~= c.subrange(0, k));
    assert(mutated_content(c, k).subrange(k, k + noop_bytes().len()) =~= noop_bytes());
    assert(mutated_content(c, k).subrange(
        k + noop_bytes().len(),
        mutated_content(c, k).len() as int,
    ) =~= c.subrange(k, c.len() as int));
}

/// Build the mutated copy: the given content with the no-op statement
/// inserted at `offset`.
pub fn splice_noop(content: &[u8], offset: usize) -> (r: Vec<u8>)
    requires
        offset <= content@.len(),
    ensures
        r@ == mutated_content(content@, offset as int),
{
    let mut r: Vec<u8> = Vec::new();
    let mut i: usize = 0;
    while i < offset
        invariant
            i <= offset <= content@.len(),
            r@ == content@.subrange(0, i as int),
        decreases offset - i,
    {
        r.push(content[i]);
        assert(r@ =~= content@.subrange(0, i + 1));
        i = i + 1;
    }
    r.push(48u8);
    r.push(59u8);
    assert(r@ =~= content@.subrange(0, offset as int) + noop_bytes());
    while i < content.len()
        invariant
            offset <= i <= content@.len(),
            r@ == content@.subrange(0, offset as int) + noop_bytes()
                + content@.subrange(offset as int, i as int),
        decreases content@.len() - i,
    {
        r.push(content[i]);
        assert(r@ =~= content@.subrange(0, offset as int) + noop_bytes()
            + content@.subrange(offset as int, i + 1));
        i = i + 1;
    }
    assert(r@ =~= mutated_content(content@, offset as int));
    r
}

/// Holds the pristine copy of a file's content for the duration of a scoped
/// mutation, so that the restoring write puts back exactly the bytes the
/// file held before the mutation.
pub struct MutationGuard {
    pristine: Vec<u8>,
}

impl MutationGuard {
    /// The pristine content this guard restores.
    pub closed spec fn pristine_view(self) -> Seq<u8> {
        self.pristine@
    }

    /// Begin a scoped mutation: keep the pristine content and hand back the
    /// mutated copy to be written in its place.
    pub fn begin(content: Vec<u8>, offset: usize) -> (r: (MutationGuard, Vec<u8>))
        requires
            offset <= content@.len(),
        ensures
            r.0.pristine_view() == content@,
            r.1@ == mutated_content(content@, offset as int),
    {
        let mutated = splice_noop(content.as_slice(), offset);
        (MutationGuard { pristine: content }, mutated)
    }

    /// Restore invariant: end the scoped mutation by handing back content
    /// byte-identical to what was given to `begin`, whatever happened in
    /// between.
    pub fn restore(self) -> (r: Vec<u8>)
        ensures
            r@ == self.pristine_view(),
    {
        self.pristine
    }
}

} // verus!
