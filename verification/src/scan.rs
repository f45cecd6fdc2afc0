//! The pure pieces of the manifest-scanning collaborator: naming a
//! module's directory and manifest, selecting interesting module
//! directories, and the deliberately naive extraction of a candidate
//! dependency token from one manifest line. Reading directories and
//! files stays outside the library; these functions only compute.

use vstd::prelude::*;
use crate::bytes::{bytes_eq, bytes_ends_with, is_suffix_of, push_all};

verus! {

/// Path separator.
pub const SLASH: u8 = 47;

/// The delimiter whose left-hand side a manifest line contributes as a
/// candidate dependency token.
pub const EQUALS: u8 = 61;

/// The identifier "superconsole", which is never an interesting module.
pub open spec fn superconsole_name() -> Seq<u8> {
    seq![115u8, 117u8, 112u8, 101u8, 114u8, 99u8, 111u8, 110u8, 115u8, 111u8, 108u8, 101u8]
}

/// The suffix "_tests"; modules so named are not interesting.
pub open spec fn tests_suffix() -> Seq<u8> {
    seq![95u8, 116u8, 101u8, 115u8, 116u8, 115u8]
}

/// The manifest file name "Cargo.toml".
pub open spec fn cargo_toml_name() -> Seq<u8> {
    seq![67u8, 97u8, 114u8, 103u8, 111u8, 46u8, 116u8, 111u8, 109u8, 108u8]
}

/// ASCII whitespace, as trimmed around a candidate token.
pub open spec fn is_space(b: u8) -> bool {
    b == 32 || b == 9 || b == 13 || b == 10
}

fn superconsole_bytes() -> (r: Vec<u8>)
    ensures
        r@ == superconsole_name(),
{
    let mut r: Vec<u8> = Vec::new();
    r.push(115);
    r.push(117);
    r.push(112);
    r.push(101);
    r.push(114);
    r.push(99);
    r.push(111);
    r.push(110);
    r.push(115);
    r.push(111);
    r.push(108);
    r.push(101);
    proof {
        assert(r@ =~= superconsole_name());
    }
    r
}

fn tests_suffix_bytes() -> (r: Vec<u8>)
    ensures
        r@ == tests_suffix(),
{
    let mut r: Vec<u8> = Vec::new();
    r.push(95);
    r.push(116);
    r.push(101);
    r.push(115);
    r.push(116);
    r.push(115);
    proof {
        assert(r@ =~= tests_suffix());
    }
    r
}

/// Whether a module directory takes part in the analysis: everything
/// but "superconsole" and the "_tests" directories.
pub fn is_interesting_crate(s: &Vec<u8>) -> (r: bool)
    ensures
        r == (s@ != superconsole_name() && !is_suffix_of(tests_suffix(), s@)),
{
    let sc = superconsole_bytes();
    let ts = tests_suffix_bytes();
    let same = bytes_eq(s, &sc);
    let tests = bytes_ends_with(s, &ts);
    !same && !tests
}

/// One module directory: the folder that holds it, and its name.
pub struct Crate {
    pub folder: Vec<u8>,
    pub name: Vec<u8>,
}

impl Crate {
    /// The module's directory: folder, separator, name.
    pub fn path(&self) -> (r: Vec<u8>)
        ensures
            r@ == self.folder@ + seq![SLASH] + self.name@,
    {
        let mut r: Vec<u8> = Vec::new();
        push_all(&mut r, &self.folder);
        r.push(SLASH);
        push_all(&mut r, &self.name);
        proof {
            assert(r@ =~= self.folder@ + seq![SLASH] + self.name@);
        }
        r
    }

    /// The module's manifest file: its directory, separator,
    /// "Cargo.toml".
    pub fn cargo_toml(&self) -> (r: Vec<u8>)
        ensures
            r@ == self.folder@ + seq![SLASH] + self.name@ + seq![SLASH] + cargo_toml_name(),
    {
        let mut r = self.path();
        r.push(SLASH);
        r.push(67);
        r.push(97);
        r.push(114);
        r.push(103);
        r.push(111);
        r.push(46);
        r.push(116);
        r.push(111);
        r.push(109);
        r.push(108);
        proof {
            assert(r@ =~= self.folder@ + seq![SLASH] + self.name@ + seq![SLASH]
                + cargo_toml_name());
        }
        r
    }
}

/// `i` is the position of the first delimiter of the line.
pub open spec fn first_equals_at(line: Seq<u8>, i: int) -> bool {
    0 <= i < line.len() && line[i] == EQUALS && forall|k: int| 0 <= k < i ==> line[k] != EQUALS
}

/// `tok` is the left-hand side of the first delimiter of `line`, with
/// the surrounding ASCII whitespace trimmed away: it is the infix from
/// `a` to `b`, everything outside it up to the delimiter is whitespace,
/// and it neither starts nor ends with whitespace itself.
pub open spec fn is_candidate_of(line: Seq<u8>, i: int, a: int, b: int, tok: Seq<u8>) -> bool {
    first_equals_at(line, i) && 0 <= a <= b <= i && tok == line.subrange(a, b) && (forall|k: int|
        0 <= k < a ==> is_space(line[k])) && (forall|k: int| b <= k < i ==> is_space(line[k])) && (
    a < b ==> !is_space(line[a]) && !is_space(line[b - 1]))
}

/// `tok` is the trimmed left-hand side of the first delimiter of `line`.
pub open spec fn is_candidate(line: Seq<u8>, tok: Seq<u8>) -> bool {
    exists|i: int, a: int, b: int| #[trigger] is_candidate_of(line, i, a, b, tok)
}

/// The candidate dependency token of one manifest line: the trimmed
/// left-hand side of the first delimiter, or nothing for a line without
/// a delimiter. A lexically naive heuristic, kept on purpose.
pub fn candidate_from_line(line: &Vec<u8>) -> (r: Option<Vec<u8>>)
    ensures
        r is Some ==> is_candidate(line@, r.unwrap()@),
        r is None ==> forall|k: int| 0 <= k < line@.len() ==> line@[k] != EQUALS,
{
    let n = line.len();
    let mut i: usize = 0;
    while i < n
        invariant
            n == line@.len(),
            0 <= i <= n,
            forall|k: int| 0 <= k < i ==> line@[k] != EQUALS,
        decreases n - i,
    {
        if line[i] == EQUALS {
            let mut a: usize = 0;
            while a < i && is_space_byte(line[a])
                invariant
                    n == line@.len(),
                    0 <= a <= i < n,
                    line@[i as int] == EQUALS,
                    forall|k: int| 0 <= k < i ==> line@[k] != EQUALS,
                    forall|k: int| 0 <= k < a ==> is_space(line@[k]),
                decreases i - a,
            {
                a += 1;
            }
            let mut b: usize = i;
            while b > a && is_space_byte(line[b - 1])
                invariant
                    n == line@.len(),
                    0 <= a <= b <= i < n,
                    line@[i as int] == EQUALS,
                    forall|k: int| 0 <= k < i ==> line@[k] != EQUALS,
                    forall|k: int| 0 <= k < a ==> is_space(line@[k]),
                    forall|k: int| b <= k < i ==> is_space(line@[k]),
                decreases b - a,
            {
                b -= 1;
            }
            let mut tok: Vec<u8> = Vec::new();
            proof {
                assert(line@.subrange(a as int, a as int) =~= Seq::<u8>::empty());
            }
            let mut k: usize = a;
            while k < b
                invariant
                    n == line@.len(),
                    0 <= a <= k <= b <= n,
                    tok@ == line@.subrange(a as int, k as int),
                decreases b - k,
            {
                let c = line[k];
                tok.push(c);
                proof {
                    assert(line@.subrange(a as int, k as int + 1) =~= line@.subrange(
                        a as int,
                        k as int,
                    ).push(line@[k as int]));
                }
                k += 1;
            }
            proof {
                assert(is_candidate_of(line@, i as int, a as int, b as int, tok@));
                assert(is_candidate(line@, tok@));
            }
            return Some(tok);
        }
        i += 1;
    }
    None
}

/// Whitespace test for one byte.
fn is_space_byte(b: u8) -> (r: bool)
    ensures
        r == is_space(b),
{
    b == 32 || b == 9 || b == 13 || b == 10
}

} // verus!
