//! Lint error collection: a context-stack collector that records every
//! failed check with the project/table/column/row path it occurred under.

use vstd::prelude::*;
use crate::aperror;
use crate::caseconv::{unicode_alnum, unicode_num};
use crate::caseconv::{char_is_alnum, char_is_num};
use crate::strutil::dec_rep;
use crate::strutil::usize_to_string;

verus! {

/// A lint collector: a stack of context labels and the failures recorded so
/// far. `emit` says whether the collector is meant for user-facing output.
pub struct Linter {
    emit: bool,
    contexts: Vec<String>,
    failures: Vec<String>,
}

/// Mathematical model of a [`Linter`].
pub struct LinterV {
    pub emit: bool,
    pub contexts: Seq<Seq<char>>,
    pub failures: Seq<Seq<char>>,
}

impl View for Linter {
    type V = LinterV;

    closed spec fn view(&self) -> LinterV {
        LinterV {
            emit: self.emit,
            contexts: self.contexts.deep_view(),
            failures: self.failures.deep_view(),
        }
    }
}

/// The context labels joined with `:`.
pub open spec fn join_colon(cs: Seq<Seq<char>>) -> Seq<char>
    decreases cs.len(),
{
    if cs.len() == 0 {
        Seq::empty()
    } else if cs.len() == 1 {
        cs[0]
    } else {
        cs[0] + seq![':'] + join_colon(cs.drop_first())
    }
}

proof fn lemma_join_colon_push(cs: Seq<Seq<char>>, x: Seq<char>)
    ensures
        join_colon(cs.push(x)) == if cs.len() == 0 {
            x
        } else {
            join_colon(cs) + seq![':'] + x
        },
    decreases cs.len(),
{
    if cs.len() == 0 {
        assert(cs.push(x).len() == 1);
        assert(cs.push(x)[0] == x);
    } else if cs.len() == 1 {
        assert(cs.push(x).drop_first() =~= seq![x]);
        assert(join_colon(seq![x]) == x);
        assert(cs.push(x)[0] == cs[0]);
    } else {
        lemma_join_colon_push(cs.drop_first(), x);
        assert(cs.push(x).drop_first() =~= cs.drop_first().push(x));
    }
}

/// The recorded line for one failure: `!` + context path + space + message.
pub open spec fn err_line(contexts: Seq<Seq<char>>, msg: Seq<char>) -> Seq<char> {
    seq!['!'] + join_colon(contexts) + seq![' '] + msg
}

impl Linter {
    pub fn new() -> (r: Linter)
        ensures
            r@.emit == true,
            r@.contexts == Seq::<Seq<char>>::empty(),
            r@.failures == Seq::<Seq<char>>::empty(),
    {
        Linter { emit: true, contexts: Vec::new(), failures: Vec::new() }
    }

    /// The number of failures recorded so far.
    pub fn errors(&self) -> (r: usize)
        ensures
            r == self@.failures.len(),
    {
        self.failures.len()
    }

    /// The failure lines recorded so far.
    pub fn failures(&self) -> (r: &Vec<String>)
        ensures
            r.deep_view() == self@.failures,
    {
        &self.failures
    }

    /// The current context path, labels joined with `:`.
    pub fn str_context(&self) -> (r: String)
        ensures
            r@ == join_colon(self@.contexts),
    {
        let n = self.contexts.len();
        let mut acc = String::new();
        let mut i: usize = 0;
        while i < n
            invariant
                i <= n,
                n == self.contexts@.len(),
                acc@ == join_colon(self.contexts.deep_view().take(i as int)),
            decreases n - i,
        {
            if i > 0 {
                acc.append(":");
            }
            acc.append(self.contexts[i].as_str());
            proof {
                reveal_strlit(":");
                let cs = self.contexts.deep_view();
                lemma_join_colon_push(cs.take(i as int), cs[i as int]);
                assert(cs.take(i + 1 as int) =~= cs.take(i as int).push(cs[i as int]));
            }
            i += 1;
        }
        proof {
            assert(self.contexts.deep_view().take(n as int) =~= self.contexts.deep_view());
        }
        acc
    }

    /// Record a failure under the current context when `condition` is false.
    pub fn err(&mut self, condition: bool, message: &str)
        ensures
            final(self)@.emit == old(self)@.emit,
            final(self)@.contexts == old(self)@.contexts,
            condition ==> final(self)@.failures == old(self)@.failures,
            !condition ==> final(self)@.failures == old(self)@.failures.push(
                err_line(old(self)@.contexts, message@),
            ),
    {
        if !condition {
            let mut line = String::new();
            line.append("!");
            line.append(self.str_context().as_str());
            line.append(" ");
            line.append(message);
            proof {
                reveal_strlit("!");
                reveal_strlit(" ");
                assert(line@ =~= err_line(self@.contexts, message@));
            }
            self.failures.push(line);
            proof {
                assert(self.failures.deep_view() =~= old(self).failures.deep_view().push(
                    err_line(old(self)@.contexts, message@),
                ));
            }
        }
    }

    /// Funnel an error result into the collector under `prologue`.
    pub fn check_result<R>(&mut self, prologue: &str, result: aperror::Result<R>)
        ensures
            final(self)@.emit == old(self)@.emit,
            final(self)@.contexts == old(self)@.contexts,
            match result {
                Ok(_) => final(self)@.failures == old(self)@.failures,
                Err(e) => final(self)@.failures == old(self)@.failures.push(
                    err_line(old(self)@.contexts.push(prologue@), e@),
                ),
            },
    {
        match result {
            Ok(_) => {},
            Err(e) => {
                self.context(prologue);
                self.err(false, e.message());
                self.leave();
                proof {
                    assert(final(self)@.contexts =~= old(self)@.contexts);
                }
            },
        }
    }

    /// Enter a nested context labelled `prologue`.
    pub fn context(&mut self, prologue: &str)
        ensures
            final(self)@.emit == old(self)@.emit,
            final(self)@.failures == old(self)@.failures,
            final(self)@.contexts == old(self)@.contexts.push(prologue@),
    {
        self.contexts.push(prologue.to_owned());
        proof {
            assert(self.contexts.deep_view() =~= old(self).contexts.deep_view().push(prologue@));
        }
    }

    /// Leave the innermost context entered by [`Linter::context`].
    pub fn leave(&mut self)
        requires
            old(self)@.contexts.len() > 0,
        ensures
            final(self)@.emit == old(self)@.emit,
            final(self)@.failures == old(self)@.failures,
            final(self)@.contexts == old(self)@.contexts.drop_last(),
    {
        let _ = self.contexts.pop();
        proof {
            assert(self.contexts.deep_view() =~= old(self).contexts.deep_view().drop_last());
        }
    }

    /// Enter a nested context labelled with the row number.
    pub fn row(&mut self, row: usize)
        ensures
            final(self)@.emit == old(self)@.emit,
            final(self)@.failures == old(self)@.failures,
            final(self)@.contexts == old(self)@.contexts.push(dec_rep(row as nat)),
    {
        let num = usize_to_string(row);
        self.context(num.as_str());
    }
}

/// The collector after a check: same context, `k` failures recorded on top
/// of the ones already there.
pub open spec fn extends(new: LinterV, old: LinterV, k: nat) -> bool {
    &&& new.emit == old.emit
    &&& new.contexts == old.contexts
    &&& new.failures.len() == old.failures.len() + k
    &&& new.failures.take(old.failures.len() as int) == old.failures
}

/// A valid identifier: non-empty, alphanumeric or underscore characters,
/// and not starting with a numeric character.
pub open spec fn is_label(s: Seq<char>) -> bool {
    &&& s.len() > 0
    &&& forall|i: int| 0 <= i < s.len() ==> unicode_alnum(#[trigger] s[i]) || s[i] == '_'
    &&& !unicode_num(s[0])
}

/// Check that `str` is a valid identifier.
pub fn label(str: &str) -> (r: bool)
    ensures
        r == is_label(str@),
{
    let n = str.unicode_len();
    if n == 0 {
        return false;
    }
    let mut i: usize = 0;
    while i < n
        invariant
            i <= n,
            n == str@.len(),
            forall|k: int| 0 <= k < i ==> unicode_alnum(#[trigger] str@[k]) || str@[k] == '_',
            i > 0 ==> !unicode_num(str@[0]),
        decreases n - i,
    {
        let c = str.get_char(i);
        if !char_is_alnum(c) && c != '_' {
            return false;
        }
        if i == 0 && char_is_num(c) {
            return false;
        }
        i += 1;
    }
    true
}

/// A collector for tests: identical to [`Linter::new`] but not meant for
/// user-facing output.
pub fn test_linter() -> (r: Linter)
    ensures
        r@.emit == false,
        r@.contexts == Seq::<Seq<char>>::empty(),
        r@.failures == Seq::<Seq<char>>::empty(),
{
    Linter { emit: false, contexts: Vec::new(), failures: Vec::new() }
}

} // verus!
