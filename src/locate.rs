//! Finding the one string literal that covers a source line.

use crate::error::SpanError;
use crate::segment::str_views;
use vstd::prelude::*;

verus! {

/// A string literal of a source document: its decoded value and the lines it spans.
#[derive(Debug, Clone)]
pub struct LiteralRecord {
    pub value: String,
    pub start_line: usize,
    pub end_line: usize,
}

/// What a literal record means: its value, first line and last line.
pub type LiteralView = (Seq<char>, nat, nat);

impl View for LiteralRecord {
    type V = LiteralView;

    open spec fn view(&self) -> LiteralView {
        (self.value@, self.start_line as nat, self.end_line as nat)
    }
}

/// The views of a sequence of literal records.
pub open spec fn literal_views(lits: Seq<LiteralRecord>) -> Seq<LiteralView> {
    lits.map_values(|r: LiteralRecord| r@)
}

/// Whether the lines of a literal include `line`.
pub open spec fn covers(lit: LiteralView, line: nat) -> bool {
    lit.1 <= line <= lit.2
}

/// The values of the literals whose lines include `line`, in order.
pub open spec fn covering(lits: Seq<LiteralView>, line: nat) -> Seq<Seq<char>>
    decreases lits.len(),
{
    if lits.len() == 0 {
        Seq::empty()
    } else {
        let rest = covering(lits.drop_last(), line);
        if covers(lits.last(), line) {
            rest.push(lits.last().0)
        } else {
            rest
        }
    }
}

/// Collects the values of the literals that cover one target line, as a walk over a
/// document reports them.
#[derive(Debug)]
pub struct StringVisitor {
    pub target_line: usize,
    pub found_strings: Vec<String>,
}

impl StringVisitor {
    /// A collector for `target_line` that has found nothing yet.
    pub fn new(target_line: usize) -> (r: Self)
        ensures
            r.target_line == target_line,
            r.found_strings@.len() == 0,
    {
        StringVisitor { target_line, found_strings: Vec::new() }
    }

    /// Takes in one literal of the document: its value is kept if its lines include
    /// the target line.
    pub fn visit_literal(&mut self, value: String, start_line: usize, end_line: usize)
        ensures
            final(self).target_line == old(self).target_line,
            str_views(final(self).found_strings@) == if start_line <= old(self).target_line
                <= end_line {
                str_views(old(self).found_strings@).push(value@)
            } else {
                str_views(old(self).found_strings@)
            },
    {
        if start_line <= self.target_line && self.target_line <= end_line {
            let ghost v = value@;
            self.found_strings.push(value);
            assert(str_views(self.found_strings@) =~= str_views(old(self).found_strings@).push(v));
        }
    }

    /// The single value found; an error when none or several were.
    pub fn into_result(self) -> (r: Result<String, SpanError>)
        ensures
            self.found_strings@.len() == 0 <==> r matches Err(SpanError::NoStringFound),
            self.found_strings@.len() > 1 <==> r matches Err(SpanError::MultipleStringsFound),
            self.found_strings@.len() == 1 <==> r is Ok,
            r matches Ok(s) ==> s@ == self.found_strings@[0]@,
    {
        let mut found = self.found_strings;
        if found.len() == 0 {
            Err(SpanError::NoStringFound)
        } else if found.len() == 1 {
            match found.pop() {
                Some(s) => Ok(s),
                None => Err(SpanError::NoStringFound),
            }
        } else {
            Err(SpanError::MultipleStringsFound)
        }
    }
}

/// The decoded value of the one literal whose lines include `target_line`; an error when
/// no literal or more than one does.
pub fn locate(literals: &Vec<LiteralRecord>, target_line: usize) -> (r: Result<String, SpanError>)
    ensures
        covering(literal_views(literals@), target_line as nat).len() == 0 <==> r matches Err(
            SpanError::NoStringFound,
        ),
        covering(literal_views(literals@), target_line as nat).len() > 1 <==> r matches Err(
            SpanError::MultipleStringsFound,
        ),
        covering(literal_views(literals@), target_line as nat).len() == 1 <==> r is Ok,
        r matches Ok(s) ==> s@ == covering(literal_views(literals@), target_line as nat)[0],
{
    let ghost lits = literal_views(literals@);
    let mut visitor = StringVisitor::new(target_line);
    let mut i: usize = 0;
    while i < literals.len()
        invariant
            i <= literals@.len(),
            lits == literal_views(literals@),
            visitor.target_line == target_line,
            str_views(visitor.found_strings@) == covering(lits.take(i as int), target_line as nat),
        decreases literals.len() - i,
    {
        let lit = &literals[i];
        proof {
            assert(lits.take(i + 1).drop_last() =~= lits.take(i as int));
            assert(lits.take(i + 1).last() == lit@);
        }
        visitor.visit_literal(lit.value.clone(), lit.start_line, lit.end_line);
        i += 1;
    }
    assert(lits.take(i as int) =~= lits);
    let found = Ghost(visitor.found_strings@);
    assert(str_views(found@).len() == found@.len());
    let r = visitor.into_result();
    proof {
        if found@.len() == 1 {
            assert(str_views(found@)[0] == found@[0]@);
        }
    }
    r
}

/// Which literals cover a line does not change while no other literal's lines meet
/// those of literal `k`.
proof fn lemma_covering_alone(lits: Seq<LiteralView>, k: int, line: nat)
    requires
        0 <= k < lits.len(),
        covers(lits[k], line),
        forall|j: int|
            0 <= j < lits.len() && j != k ==> (#[trigger] lits[j]).2 < lits[k].1 || lits[j].1
                > lits[k].2,
    ensures
        covering(lits, line) == seq![lits[k].0],
    decreases lits.len(),
{
    let n = lits.len() - 1;
    let init = lits.drop_last();
    if k == n {
        assert forall|j: int| 0 <= j < init.len() implies !covers(#[trigger] init[j], line) by {
            assert(init[j] == lits[j]);
        }
        lemma_covering_none(init, line);
        assert(Seq::<Seq<char>>::empty().push(lits[k].0) =~= seq![lits[k].0]);
    } else {
        assert(lits.last() == lits[n]);
        assert forall|j: int| 0 <= j < init.len() && j != k implies (#[trigger] init[j]).2
            < init[k].1 || init[j].1 > init[k].2 by {
            assert(init[j] == lits[j]);
        }
        lemma_covering_alone(init, k, line);
    }
}

/// No literal covers the line: nothing is found.
proof fn lemma_covering_none(lits: Seq<LiteralView>, line: nat)
    requires
        forall|j: int| 0 <= j < lits.len() ==> !covers(#[trigger] lits[j], line),
    ensures
        covering(lits, line) == Seq::<Seq<char>>::empty(),
    decreases lits.len(),
{
    if lits.len() > 0 {
        let init = lits.drop_last();
        assert forall|j: int| 0 <= j < init.len() implies !covers(#[trigger] init[j], line) by {
            assert(init[j] == lits[j]);
        }
        assert(!covers(lits[lits.len() - 1], line));
        lemma_covering_none(init, line);
    }
}

/// Every line of a multi-line literal locates the same decoded text, namely that
/// literal's value, when no other literal's lines meet its lines.
pub proof fn lemma_locate_multi_line(lits: Seq<LiteralView>, k: int, line1: nat, line2: nat)
    requires
        0 <= k < lits.len(),
        lits[k].1 <= line1 <= lits[k].2,
        lits[k].1 <= line2 <= lits[k].2,
        forall|j: int|
            0 <= j < lits.len() && j != k ==> (#[trigger] lits[j]).2 < lits[k].1 || lits[j].1
                > lits[k].2,
    ensures
        covering(lits, line1) == covering(lits, line2),
        covering(lits, line1) == seq![lits[k].0],
{
    lemma_covering_alone(lits, k, line1);
    lemma_covering_alone(lits, k, line2);
}

} // verus!
