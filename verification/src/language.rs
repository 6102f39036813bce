//! Target language identity: the file extension that selects a backend and
//! the few text helpers shared by every backend.

use vstd::prelude::*;
use crate::strutil::{rfind_char, str_eq};

verus! {

/// The target language of a generated file. The text emitters themselves
/// are outside collaborators; the core only needs the identity.
pub enum Lang {
    Rust,
    C,
    Swift,
}

impl Lang {
    /// The file extension of generated sources.
    pub fn extension(&self) -> (r: String)
        ensures
            r@ == match self {
                Lang::Rust => "rs"@,
                Lang::C => "c"@,
                Lang::Swift => "swift"@,
            },
    {
        let mut s = String::new();
        match self {
            Lang::Rust => s.append("rs"),
            Lang::C => s.append("c"),
            Lang::Swift => s.append("swift"),
        }
        s
    }

    /// Whether label columns are promoted to data columns by an `as_label`
    /// request.
    pub fn to_label(&self) -> (r: bool)
        ensures
            r == (self is Rust),
    {
        match self {
            Lang::Rust => true,
            Lang::C => false,
            Lang::Swift => false,
        }
    }
}

/// The extension of `filename`: the characters after the last `.` of its
/// basename, empty when there is none.
pub open spec fn spec_extension(filename: Seq<char>) -> Seq<char> {
    let base = crate::strutil::spec_basename(filename);
    if crate::strutil::last_dot(base) >= 0 {
        base.skip(crate::strutil::last_dot(base) + 1)
    } else {
        Seq::empty()
    }
}

/// The language selected by the destination file name's extension; an
/// unknown extension falls back to Rust.
pub open spec fn spec_language_for_dest(filename: Seq<char>) -> Lang {
    if spec_extension(filename) == "c"@ {
        Lang::C
    } else if spec_extension(filename) == "swift"@ {
        Lang::Swift
    } else {
        Lang::Rust
    }
}

fn extension_of(filename: &str) -> (r: String)
    ensures
        r@ == spec_extension(filename@),
{
    let base = crate::strutil::basename(filename);
    let bs = base.as_str();
    let n = bs.unicode_len();
    match rfind_char(bs, '.') {
        Some(i) => {
            proof {
                crate::strutil::lemma_last_dot_at(base@, i as int);
                assert(base@.subrange(i + 1, n as int) =~= base@.skip(i + 1));
            }
            let ext = bs.substring_char(i + 1, n);
            ext.to_owned()
        },
        None => {
            proof {
                crate::strutil::lemma_last_dot_none(base@);
            }
            String::new()
        },
    }
}

/// Compute the target language from the destination file name's extension.
pub fn language_for_dest(filename: &str) -> (r: Lang)
    ensures
        r == spec_language_for_dest(filename@),
{
    let ext = extension_of(filename);
    if str_eq(ext.as_str(), "c") {
        Lang::C
    } else if str_eq(ext.as_str(), "swift") {
        Lang::Swift
    } else {
        Lang::Rust
    }
}

/// Ten to the `k`.
pub open spec fn pow10(k: nat) -> nat
    decreases k,
{
    if k == 0 {
        1
    } else {
        10 * pow10((k - 1) as nat)
    }
}

proof fn lemma_pow10_pos(k: nat)
    ensures
        pow10(k) >= 1,
    decreases k,
{
    if k > 0 {
        lemma_pow10_pos((k - 1) as nat);
    }
}

proof fn lemma_pow10_mono_le(a: nat, b: nat)
    requires
        a <= b,
    ensures
        pow10(a) <= pow10(b),
    decreases b - a,
{
    if a < b {
        lemma_pow10_pos(a);
        lemma_pow10_mono_le(a, (b - 1) as nat);
        lemma_pow10_pos((b - 1) as nat);
    }
}

/// The decimal magnitude of `n`: the smallest `k` with `pow10(k) >= n`,
/// and 1 for 0.
pub fn digits(n: usize) -> (r: usize)
    ensures
        n == 0 ==> r == 1,
        n > 0 ==> pow10(r as nat) >= n && (r == 0 || pow10((r - 1) as nat) < n),
{
    if n == 0 {
        return 1;
    }
    let mut k: usize = 0;
    let mut p: u128 = 1;
    while p < n as u128
        invariant
            n > 0,
            n <= usize::MAX,
            p as nat == pow10(k as nat),
            1 <= p,
            k <= 20,
            k == 0 || pow10((k - 1) as nat) < n,
        decreases 10 * (n as int) - (p as int),
    {
        proof {
            lemma_pow10_pos(k as nat);
            reveal_with_fuel(pow10, 22);
            assert(pow10(20) > 0xFFFF_FFFF_FFFF_FFFFnat);
            lemma_pow10_mono_le(k as nat, 20);
            assert(k < 20);
        }
        p = p * 10;
        k = k + 1;
    }
    k
}

/// The banner line written at the top of every generated file.
pub fn file_notice() -> (r: String)
    ensures
        r@ == "generated by insrcdata"@,
{
    let mut s = String::new();
    s.append("generated by insrcdata");
    s
}

/// The index of the first newline of `doc`, or -1.
pub open spec fn first_nl(doc: Seq<char>) -> int
    decreases doc.len(),
{
    if doc.len() == 0 {
        -1
    } else if doc[0] == '\n' {
        0
    } else {
        let r = first_nl(doc.drop_first());
        if r < 0 {
            -1
        } else {
            r + 1
        }
    }
}

proof fn lemma_first_nl_at(doc: Seq<char>, i: int)
    requires
        0 <= i < doc.len(),
        doc[i] == '\n',
        forall|j: int| 0 <= j < i ==> doc[j] != '\n',
    ensures
        first_nl(doc) == i,
    decreases doc.len(),
{
    if i > 0 {
        assert(doc.drop_first()[i - 1] == '\n');
        assert forall|j: int| 0 <= j < i - 1 implies doc.drop_first()[j] != '\n' by {
            assert(doc[j + 1] != '\n');
        }
        lemma_first_nl_at(doc.drop_first(), i - 1);
    }
}

proof fn lemma_first_nl_none(doc: Seq<char>)
    requires
        forall|j: int| 0 <= j < doc.len() ==> doc[j] != '\n',
    ensures
        first_nl(doc) == -1,
    decreases doc.len(),
{
    if doc.len() > 0 {
        assert forall|j: int| 0 <= j < doc.drop_first().len() implies doc.drop_first()[j]
            != '\n' by {
            assert(doc[j + 1] != '\n');
        }
        lemma_first_nl_none(doc.drop_first());
    }
}

/// One prefixed line per line of `doc`, each terminated by a newline.
pub open spec fn spec_help_text(prefix: Seq<char>, doc: Seq<char>) -> Seq<char>
    decreases doc.len(),
    via spec_help_text_decreases
{
    if first_nl(doc) < 0 {
        prefix + doc + seq!['\n']
    } else {
        prefix + doc.take(first_nl(doc)) + seq!['\n'] + spec_help_text(
            prefix,
            doc.skip(first_nl(doc) + 1),
        )
    }
}

proof fn lemma_first_nl_range(doc: Seq<char>)
    ensures
        first_nl(doc) < doc.len(),
    decreases doc.len(),
{
    if doc.len() > 0 && doc[0] != '\n' {
        lemma_first_nl_range(doc.drop_first());
    }
}

#[via_fn]
proof fn spec_help_text_decreases(prefix: Seq<char>, doc: Seq<char>) {
    lemma_first_nl_range(doc);
}

/// Render a doc comment: prefix each line of `doc` with the comment mark.
/// `None` renders as empty.
pub fn write_help(prefix: &str, doc: &Option<String>) -> (r: String)
    ensures
        match doc {
            Some(d) => r@ == spec_help_text(prefix@, d@),
            None => r@.len() == 0,
        },
{
    let mut out = String::new();
    let d = match doc {
        Some(d) => d,
        None => {
            return out;
        },
    };
    let ds = d.as_str();
    let n = ds.unicode_len();
    let ghost whole = ds@;
    proof {
        assert(whole.skip(0) =~= whole);
        assert(out@ + spec_help_text(prefix@, whole) =~= spec_help_text(prefix@, whole));
    }
    let mut start: usize = 0;
    let mut i: usize = 0;
    loop
        invariant
            start <= i <= n,
            n == ds@.len(),
            whole == ds@,
            whole == d@,
            doc matches Some(x) && x == *d,
            forall|j: int| start <= j < i ==> whole[j] != '\n',
            spec_help_text(prefix@, whole) == out@ + spec_help_text(
                prefix@,
                whole.skip(start as int),
            ),
        decreases n - i,
    {
        if i == n {
            proof {
                let sk = whole.skip(start as int);
                assert forall|j: int| 0 <= j < sk.len() implies sk[j] != '\n' by {
                    assert(whole[j + start] != '\n');
                }
                lemma_first_nl_none(sk);
                assert(whole.subrange(start as int, n as int) =~= sk);
            }
            let ghost out0 = out@;
            out.append(prefix);
            out.append(ds.substring_char(start, n));
            out.append("\n");
            proof {
                reveal_strlit("\n");
                assert(out@ =~= out0 + spec_help_text(prefix@, whole.skip(start as int)));
            }
            return out;
        }
        let c = ds.get_char(i);
        if c == '\n' {
            proof {
                let sk = whole.skip(start as int);
                assert(sk[i - start] == '\n');
                assert forall|j: int| 0 <= j < i - start implies sk[j] != '\n' by {
                    assert(whole[j + start] != '\n');
                }
                lemma_first_nl_at(sk, i - start);
                assert(sk.take(i - start) =~= whole.subrange(start as int, i as int));
                assert(sk.skip(i - start + 1) =~= whole.skip(i + 1));
            }
            let ghost out0 = out@;
            out.append(prefix);
            out.append(ds.substring_char(start, i));
            out.append("\n");
            proof {
                reveal_strlit("\n");
                assert(out@ =~= out0 + (prefix@ + whole.skip(start as int).take(i - start)
                    + seq!['\n']));
                assert(out@ + spec_help_text(prefix@, whole.skip(i + 1)) =~= spec_help_text(
                    prefix@,
                    whole,
                ));
            }
            start = i + 1;
        }
        i += 1;
    }
}

} // verus!
