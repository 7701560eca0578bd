use vstd::prelude::*;
use vstd::std_specs::iter::IteratorSpec;

use crate::analysis::count_upto;
use crate::complex::{contains_name, names_of, Complex};

verus! {

/// A character with the Unicode `White_Space` property, the separators of
/// `str::split_whitespace`.
pub open spec fn is_ws(c: char) -> bool {
    let u = c as u32;
    (0x9 <= u && u <= 0xD) || u == 0x20 || u == 0x85 || u == 0xA0 || u == 0x1680 || (0x2000 <= u
        && u <= 0x200A) || u == 0x2028 || u == 0x2029 || u == 0x202F || u == 0x205F || u == 0x3000
}

/// The separator of lines, or of words.
pub open spec fn is_sep(c: char, by_line: bool) -> bool {
    if by_line {
        c == '\n'
    } else {
        is_ws(c)
    }
}

/// Scans `s` from the left: the pieces ended by a separator so far, and the
/// piece being read. Between lines an empty piece counts; between words it
/// does not.
pub open spec fn pieces(s: Seq<char>, by_line: bool) -> (Seq<Seq<char>>, Seq<char>)
    decreases s.len(),
{
    if s.len() == 0 {
        (seq![], seq![])
    } else {
        let (done, cur) = pieces(s.drop_last(), by_line);
        let c = s.last();
        if is_sep(c, by_line) {
            if by_line || cur.len() > 0 {
                (done.push(cur), seq![])
            } else {
                (done, seq![])
            }
        } else {
            (done, cur.push(c))
        }
    }
}

/// `s` cut at its separators; a last piece that is empty is not one.
pub open spec fn split_spec(s: Seq<char>, by_line: bool) -> Seq<Seq<char>> {
    let (done, cur) = pieces(s, by_line);
    if cur.len() > 0 {
        done.push(cur)
    } else {
        done
    }
}

/// The lines of a text, as `str::lines` gives them up to a trailing `'\r'`,
/// which is white space and so never part of a word.
pub open spec fn lines(s: Seq<char>) -> Seq<Seq<char>> {
    split_spec(s, true)
}

/// The whitespace-separated words of a line.
pub open spec fn words(s: Seq<char>) -> Seq<Seq<char>> {
    split_spec(s, false)
}

/// The members of a complex line: the distinct words of the line that are
/// among the `known` identifiers.
pub open spec fn members(line: Seq<char>, known: Set<Seq<char>>) -> Set<Seq<char>> {
    words(line).to_set().intersect(known)
}

/// The complexes that the lines of `ls` give: one per line with at least
/// `min_size` members, each the set of its members.
pub open spec fn kept(ls: Seq<Seq<char>>, known: Set<Seq<char>>, min_size: nat) -> Seq<Set<Seq<char>>>
    decreases ls.len(),
{
    if ls.len() == 0 {
        seq![]
    } else {
        let m = members(ls.last(), known);
        if m.len() >= min_size {
            kept(ls.drop_last(), known, min_size).push(m)
        } else {
            kept(ls.drop_last(), known, min_size)
        }
    }
}

/// The complexes of a complex file's text, over the `known` identifiers.
pub open spec fn complexes_spec(text: Seq<char>, known: Set<Seq<char>>, min_size: nat) -> Seq<
    Set<Seq<char>>,
> {
    kept(lines(text), known, min_size)
}

/// Line `l` of `ls` has at least `min_size` members.
pub open spec fn long_enough(ls: Seq<Seq<char>>, known: Set<Seq<char>>, min_size: nat) -> spec_fn(
    int,
) -> bool {
    |l: int| members(ls[l], known).len() >= min_size
}

/// Complexes smaller than the minimum size are dropped: a line of fewer than
/// `min_size` members adds nothing to the complexes of the lines before it, a
/// larger one adds the set of its members, and so there are as many complexes
/// as lines of at least `min_size` members.
pub proof fn lemma_short_lines_dropped(
    ls: Seq<Seq<char>>,
    line: Seq<char>,
    known: Set<Seq<char>>,
    min_size: nat,
)
    ensures
        members(line, known).len() < min_size ==> kept(ls.push(line), known, min_size) == kept(
            ls,
            known,
            min_size,
        ),
        members(line, known).len() >= min_size ==> kept(ls.push(line), known, min_size) == kept(
            ls,
            known,
            min_size,
        ).push(members(line, known)),
        kept(ls, known, min_size).len() == count_upto(ls.len() as int, long_enough(ls, known, min_size)),
{
    assert(ls.push(line).drop_last() == ls);
    lemma_kept_len(ls, known, min_size);
}

/// There are as many complexes as lines of at least `min_size` members.
proof fn lemma_kept_len(ls: Seq<Seq<char>>, known: Set<Seq<char>>, min_size: nat)
    ensures
        kept(ls, known, min_size).len() == count_upto(ls.len() as int, long_enough(ls, known, min_size)),
    decreases ls.len(),
{
    if ls.len() > 0 {
        lemma_kept_len(ls.drop_last(), known, min_size);
        lemma_count_prefix(ls, known, min_size, ls.len() - 1);
    }
}

/// Counting large lines over a prefix of `ls` is counting them over the
/// prefix itself.
proof fn lemma_count_prefix(ls: Seq<Seq<char>>, known: Set<Seq<char>>, min_size: nat, n: int)
    requires
        0 <= n <= ls.len(),
    ensures
        count_upto(n, long_enough(ls, known, min_size)) == count_upto(
            n,
            long_enough(ls.take(n), known, min_size),
        ),
        n == ls.len() - 1 ==> count_upto(n, long_enough(ls, known, min_size)) == count_upto(
            n,
            long_enough(ls.drop_last(), known, min_size),
        ),
    decreases n,
{
    if n > 0 {
        lemma_count_prefix(ls, known, min_size, n - 1);
        lemma_count_same(ls, ls.take(n), known, min_size, n);
        if n == ls.len() - 1 {
            lemma_count_same(ls, ls.drop_last(), known, min_size, n);
        }
    }
}

/// Two lists of lines that agree below `n` count alike below `n`.
proof fn lemma_count_same(
    a: Seq<Seq<char>>,
    b: Seq<Seq<char>>,
    known: Set<Seq<char>>,
    min_size: nat,
    n: int,
)
    requires
        0 <= n <= a.len(),
        n <= b.len(),
        forall|l: int| 0 <= l < n ==> a[l] == b[l],
    ensures
        count_upto(n, long_enough(a, known, min_size)) == count_upto(n, long_enough(b, known, min_size)),
    decreases n,
{
    if n > 0 {
        lemma_count_same(a, b, known, min_size, n - 1);
        assert(a[n - 1] == b[n - 1]);
    }
}

/// A line of a text could not be read.
#[derive(Clone, Copy, Debug, PartialEq, Eq, Structural)]
pub enum LoadError {
    /// The interaction line at this index (from zero) holds fewer than two
    /// identifiers.
    MalformedLine(usize),
}

/// The first two identifiers of each of the lines `ls`, or the index of the
/// first line with fewer than two.
pub open spec fn ppi_pairs(ls: Seq<Seq<char>>) -> Result<Seq<Seq<char>>, LoadError>
    decreases ls.len(),
{
    if ls.len() == 0 {
        Ok(seq![])
    } else {
        match ppi_pairs(ls.drop_last()) {
            Err(e) => Err(e),
            Ok(ids) => {
                let w = words(ls.last());
                if w.len() < 2 {
                    Err(LoadError::MalformedLine((ls.len() - 1) as usize))
                } else {
                    Ok(ids.push(w[0]).push(w[1]))
                }
            },
        }
    }
}

/// The identifiers of an interaction file's text, two per line, or the first
/// malformed line.
pub open spec fn ppi_spec(text: Seq<char>) -> Result<Seq<Seq<char>>, LoadError> {
    ppi_pairs(lines(text))
}

/// The views of a list of character vectors.
pub open spec fn char_views(v: Seq<Vec<char>>) -> Seq<Seq<char>> {
    v.map_values(|x: Vec<char>| x@)
}

/// The characters of `s` in order.
fn chars_of(s: &str) -> (r: Vec<char>)
    ensures
        r@ == s@,
{
    broadcast use vstd::string::axiom_spec_iter, vstd::string::next_postcondition;

    let mut it = s.chars();
    let mut out: Vec<char> = Vec::new();
    loop
        invariant
            it.obeys_prophetic_iter_laws(),
            it.decrease() is Some,
            out@ + it.remaining() == s@,
        ensures
            out@ == s@,
        decreases it.decrease()->0,
    {
        let ghost rem = it.remaining();
        match it.next() {
            Some(c) => {
                let ghost before = out@;
                out.push(c);
                proof {
                    assert(rem == seq![c] + it.remaining());
                    assert(out@ + it.remaining() == before + rem);
                }
            },
            None => {
                break;
            },
        }
    }
    out
}

/// Relies on `String: FromIterator<&char>`: a string of the characters of
/// `cs` in order.
#[verifier::external_body]
fn string_of(cs: &Vec<char>) -> (r: String)
    ensures
        r@ == cs@,
{
    cs.iter().collect()
}

/// Whether `c` is white space, as `char::is_whitespace` decides.
fn is_space(c: char) -> (r: bool)
    ensures
        r == is_ws(c),
{
    let u = c as u32;
    (0x9 <= u && u <= 0xD) || u == 0x20 || u == 0x85 || u == 0xA0 || u == 0x1680 || (0x2000 <= u
        && u <= 0x200A) || u == 0x2028 || u == 0x2029 || u == 0x202F || u == 0x205F || u == 0x3000
}

/// Cuts `cs` into lines, or into words.
fn split(cs: &Vec<char>, by_line: bool) -> (r: Vec<Vec<char>>)
    ensures
        char_views(r@) == split_spec(cs@, by_line),
{
    let mut done: Vec<Vec<char>> = Vec::new();
    let mut cur: Vec<char> = Vec::new();
    let mut i: usize = 0;
    while i < cs.len()
        invariant
            i <= cs@.len(),
            (char_views(done@), cur@) == pieces(cs@.take(i as int), by_line),
        decreases cs.len() - i,
    {
        let c = cs[i];
        proof {
            assert(cs@.take(i + 1).drop_last() == cs@.take(i as int));
            assert(cs@.take(i + 1).last() == c);
        }
        let sep = if by_line {
            c == '\n'
        } else {
            is_space(c)
        };
        if sep {
            if by_line || cur.len() > 0 {
                let ghost before = done@;
                done.push(cur);
                proof {
                    assert(char_views(done@) == char_views(before).push(cur@));
                }
                cur = Vec::new();
            }
        } else {
            cur.push(c);
        }
        i = i + 1;
    }
    assert(cs@.take(cs@.len() as int) == cs@);
    if cur.len() > 0 {
        let ghost before = done@;
        done.push(cur);
        proof {
            assert(char_views(done@) == char_views(before).push(cur@));
        }
    }
    done
}

/// The words of a line, as strings.
fn words_of(line: &Vec<char>) -> (r: Vec<String>)
    ensures
        names_of(r@) == words(line@),
{
    let parts = split(line, false);
    let mut out: Vec<String> = Vec::new();
    let mut k: usize = 0;
    while k < parts.len()
        invariant
            k <= parts@.len(),
            names_of(out@) == char_views(parts@).take(k as int),
            char_views(parts@) == words(line@),
        decreases parts.len() - k,
    {
        let ghost before = out@;
        out.push(string_of(&parts[k]));
        proof {
            assert(names_of(out@) == names_of(before).push(parts@[k as int]@));
            assert(char_views(parts@).take(k + 1) == char_views(parts@).take(k as int).push(
                parts@[k as int]@,
            ));
        }
        k = k + 1;
    }
    assert(char_views(parts@).take(parts@.len() as int) == char_views(parts@));
    out
}

/// The names among `names` that `proteins` holds, in order.
fn known_names(names: &Vec<String>, proteins: &Vec<String>) -> (r: Vec<String>)
    ensures
        names_of(r@).to_set() == names_of(names@).to_set().intersect(names_of(proteins@).to_set()),
{
    let ghost known = names_of(proteins@).to_set();
    let mut out: Vec<String> = Vec::new();
    let mut i: usize = 0;
    assert(names_of(names@.take(0)).to_set().intersect(known) == Set::<Seq<char>>::empty());
    assert(names_of(out@).to_set() == Set::<Seq<char>>::empty());
    while i < names.len()
        invariant
            i <= names@.len(),
            known == names_of(proteins@).to_set(),
            names_of(out@).to_set() == names_of(names@.take(i as int)).to_set().intersect(known),
        decreases names.len() - i,
    {
        let name = &names[i];
        let ghost before = out@;
        let ghost prev = names_of(names@.take(i as int)).to_set();
        proof {
            assert(names_of(names@.take(i + 1)) == names_of(names@.take(i as int)).push(name@));
            names_of(names@.take(i as int)).lemma_push_to_set_commute(name@);
        }
        if contains_name(proteins, name) {
            out.push(name.clone());
            proof {
                assert(names_of(out@) == names_of(before).push(name@));
                names_of(before).lemma_push_to_set_commute(name@);
                assert(prev.insert(name@).intersect(known) == prev.intersect(known).insert(name@));
            }
        } else {
            proof {
                assert(prev.insert(name@).intersect(known) == prev.intersect(known));
            }
        }
        i = i + 1;
    }
    assert(names@.take(names@.len() as int) == names@);
    out
}

/// Reads the complexes of a complex file's text: one per line, the set of
/// its whitespace-separated identifiers that `proteins` holds. A line with
/// fewer than `min_size` such distinct identifiers gives no complex.
pub fn read_complexes(text: &str, proteins: &Vec<String>, min_size: u32) -> (r: Vec<Complex>)
    ensures
        r@.map_values(|c: Complex| c@) == complexes_spec(
            text@,
            names_of(proteins@).to_set(),
            min_size as nat,
        ),
{
    let ghost known = names_of(proteins@).to_set();
    let cs = chars_of(text);
    let ls = split(&cs, true);
    let mut out: Vec<Complex> = Vec::new();
    let mut k: usize = 0;
    while k < ls.len()
        invariant
            k <= ls@.len(),
            known == names_of(proteins@).to_set(),
            char_views(ls@) == lines(text@),
            out@.map_values(|c: Complex| c@) == kept(
                char_views(ls@).take(k as int),
                known,
                min_size as nat,
            ),
        decreases ls.len() - k,
    {
        let names = words_of(&ls[k]);
        let present = known_names(&names, proteins);
        let c = Complex::new(present);
        proof {
            assert(char_views(ls@).take(k + 1).drop_last() == char_views(ls@).take(k as int));
            assert(char_views(ls@).take(k + 1).last() == ls@[k as int]@);
        }
        if c.size() >= min_size as usize {
            let ghost before = out@;
            out.push(c);
            proof {
                assert(out@.map_values(|c: Complex| c@) == before.map_values(|c: Complex| c@).push(
                    c@,
                ));
            }
        }
        k = k + 1;
    }
    assert(char_views(ls@).take(ls@.len() as int) == char_views(ls@));
    out
}

/// Reads the identifiers of an interaction file's text: the first two of each
/// line, in order, or the index of the first line with fewer than two.
pub fn read_ppi_proteins(text: &str) -> (r: Result<Vec<String>, LoadError>)
    ensures
        match (r, ppi_spec(text@)) {
            (Ok(v), Ok(ids)) => names_of(v@) == ids,
            (Err(e), Err(f)) => e == f,
            _ => false,
        },
{
    let cs = chars_of(text);
    let ls = split(&cs, true);
    let mut out: Vec<String> = Vec::new();
    let mut k: usize = 0;
    while k < ls.len()
        invariant
            k <= ls@.len(),
            char_views(ls@) == lines(text@),
            ppi_pairs(char_views(ls@).take(k as int)) is Ok,
            names_of(out@) == ppi_pairs(char_views(ls@).take(k as int))->Ok_0,
        decreases ls.len() - k,
    {
        let mut names = words_of(&ls[k]);
        proof {
            assert(char_views(ls@).take(k + 1).drop_last() == char_views(ls@).take(k as int));
            assert(char_views(ls@).take(k + 1).last() == ls@[k as int]@);
            assert(char_views(ls@).take(k + 1).len() - 1 == k);
        }
        if names.len() < 2 {
            proof {
                lemma_ppi_error_stays(char_views(ls@), k + 1);
                assert(char_views(ls@).take(ls@.len() as int) == char_views(ls@));
            }
            return Err(LoadError::MalformedLine(k));
        }
        let ghost before = out@;
        let ghost nv = names_of(names@);
        let second = names.remove(1);
        let first = names.remove(0);
        out.push(first);
        out.push(second);
        proof {
            assert(names_of(out@) == names_of(before).push(nv[0]).push(nv[1]));
        }
        k = k + 1;
    }
    assert(char_views(ls@).take(ls@.len() as int) == char_views(ls@));
    Ok(out)
}

/// Once a prefix of the lines is malformed, so is every longer one, with the
/// same error.
proof fn lemma_ppi_error_stays(ls: Seq<Seq<char>>, k: int)
    requires
        0 <= k <= ls.len(),
        ppi_pairs(ls.take(k)) is Err,
    ensures
        ppi_pairs(ls) == ppi_pairs(ls.take(k)),
    decreases ls.len() - k,
{
    if k < ls.len() {
        assert(ls.take(k + 1).drop_last() == ls.take(k));
        lemma_ppi_error_stays(ls, k + 1);
    } else {
        assert(ls.take(k) == ls);
    }
}

} // verus!
