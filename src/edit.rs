use vstd::prelude::*;
use vstd::std_specs::iter::IteratorSpec;

verus! {

broadcast use vstd::string::group_string_axioms;

/// One single-character change to a string, indexed by character (not byte).
#[derive(Clone, Copy, Debug, PartialEq, Eq, Structural)]
pub enum Edit {
    /// Insert `c` before position `index`.
    Insert { c: char, index: usize },
    /// Remove the character at `index`.
    Delete { index: usize },
    /// Replace the character at `index` with `c`.
    Substitute { c: char, index: usize },
}

impl Edit {
    /// The position the edit refers to.
    pub open spec fn index_of(self) -> usize {
        match self {
            Edit::Insert { index, .. } => index,
            Edit::Delete { index } => index,
            Edit::Substitute { index, .. } => index,
        }
    }

    /// The same edit at position `n`.
    pub open spec fn with_index(self, n: usize) -> Edit {
        match self {
            Edit::Insert { c, .. } => Edit::Insert { c, index: n },
            Edit::Delete { .. } => Edit::Delete { index: n },
            Edit::Substitute { c, .. } => Edit::Substitute { c, index: n },
        }
    }

    /// Whether the edit's index is in range on a string of `len` characters.
    pub open spec fn valid_for(self, len: nat) -> bool {
        match self {
            Edit::Insert { index, .. } => index <= len,
            Edit::Delete { index } => index < len,
            Edit::Substitute { index, .. } => index < len,
        }
    }

    /// The character sequence obtained by performing the edit on `s`.
    pub open spec fn spec_apply(self, s: Seq<char>) -> Seq<char> {
        match self {
            Edit::Insert { c, index } => s.insert(index as int, c),
            Edit::Delete { index } => s.remove(index as int),
            Edit::Substitute { c, index } => s.update(index as int, c),
        }
    }

    /// Returns a new string with exactly this one change performed.
    pub fn apply(&self, string: &str) -> (r: String)
        requires
            self.valid_for(string@.len()),
        ensures
            r@ == self.spec_apply(string@),
    {
        let mut chars = chars_of(string);
        match *self {
            Edit::Insert { c, index } => {
                chars.insert(index, c);
            },
            Edit::Delete { index } => {
                chars.remove(index);
            },
            Edit::Substitute { c, index } => {
                chars.set(index, c);
            },
        }
        string_of(&chars)
    }
}

/// The result of performing `edits` on `s` strictly front to back.
pub open spec fn apply_all(edits: Seq<Edit>, s: Seq<char>) -> Seq<char>
    decreases edits.len(),
{
    if edits.len() == 0 {
        s
    } else {
        edits.last().spec_apply(apply_all(edits.drop_last(), s))
    }
}

/// Every edit of `edits`, performed front to back from `s`, is in range on the
/// string it is performed on.
pub open spec fn applicable(edits: Seq<Edit>, s: Seq<char>) -> bool
    decreases edits.len(),
{
    edits.len() == 0 || (applicable(edits.drop_last(), s) && edits.last().valid_for(
        apply_all(edits.drop_last(), s).len(),
    ))
}

/// Performing a non-empty sequence is performing its first edit, then the rest.
pub proof fn lemma_apply_first(edits: Seq<Edit>, s: Seq<char>)
    requires
        edits.len() > 0,
    ensures
        applicable(edits, s) == (edits[0].valid_for(s.len()) && applicable(
            edits.drop_first(),
            edits[0].spec_apply(s),
        )),
        apply_all(edits, s) == apply_all(edits.drop_first(), edits[0].spec_apply(s)),
    decreases edits.len(),
{
    let first = edits[0];
    let rest = edits.drop_first();
    if edits.len() == 1 {
        assert(edits.drop_last() =~= Seq::<Edit>::empty());
        assert(rest =~= Seq::<Edit>::empty());
        assert(apply_all(edits.drop_last(), s) == s);
        assert(applicable(edits.drop_last(), s));
    } else {
        let init = edits.drop_last();
        lemma_apply_first(init, s);
        assert(init.drop_first() =~= rest.drop_last());
        assert(init[0] == first);
        assert(rest.last() == edits.last());
        assert(apply_all(rest, first.spec_apply(s)) == rest.last().spec_apply(
            apply_all(rest.drop_last(), first.spec_apply(s)),
        ));
    }
}

/// The characters of `s`, in order.
pub fn chars_of(s: &str) -> (r: Vec<char>)
    ensures
        r@ == s@,
{
    let mut out: Vec<char> = Vec::new();
    for c in it: s.chars()
        invariant
            out@ == it.seq().take(it.index() as int),
    {
        out.push(c);
        assert(out@ =~= it.seq().take(it.index() + 1));
    }
    assert(out@ =~= s@);
    out
}

/// Relies on String::push: appends one character at the end of the string.
#[verifier::external_body]
fn push_char(s: &mut String, c: char)
    ensures
        final(s)@ == old(s)@.push(c),
{
    s.push(c)
}

/// A string holding exactly the characters of `chars`.
pub fn string_of(chars: &Vec<char>) -> (r: String)
    ensures
        r@ == chars@,
{
    let mut out = String::new();
    let mut k: usize = 0;
    while k < chars.len()
        invariant
            k <= chars@.len(),
            out@ == chars@.take(k as int),
        decreases chars@.len() - k,
    {
        push_char(&mut out, chars[k]);
        k = k + 1;
        assert(out@ =~= chars@.take(k as int));
    }
    assert(out@ =~= chars@);
    out
}

} // verus!
