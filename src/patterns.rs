//! The compiled filter and the pattern compiler.
use vstd::prelude::*;
use crate::checksum::{fletcher_codes, fletcher_of, text_checksum, text_crc};
use crate::vocab::{code_in, join_span, joined, line_views, views, Vocabulary};

verus! {

/// Every token of the line has a code.
pub open spec fn resolvable(v: Seq<(Seq<char>, usize)>, line: Seq<Seq<char>>) -> bool {
    forall|k: int| 0 <= k < line.len() ==> #[trigger] code_in(v, line[k]).is_some()
}

/// The codes of the tokens of a resolvable line.
pub open spec fn codes_of(v: Seq<(Seq<char>, usize)>, line: Seq<Seq<char>>) -> Seq<usize> {
    line.map_values(|t: Seq<char>| code_in(v, t).unwrap())
}

/// A line is compiled when it is non-empty, no longer than `max_len`, and
/// every token has a code.
pub open spec fn accepted(v: Seq<(Seq<char>, usize)>, line: Seq<Seq<char>>, max_len: usize) -> bool {
    0 < line.len() <= max_len && resolvable(v, line)
}

/// The (text, sequence) checksum pair of a line.
pub open spec fn pair_of(v: Seq<(Seq<char>, usize)>, line: Seq<Seq<char>>) -> (u32, u32) {
    (text_checksum(joined(line)), fletcher_of(codes_of(v, line)))
}

/// Lengths, first codes, last codes and checksum pairs.
pub type PatternSets = (Set<usize>, Set<usize>, Set<usize>, Set<(u32, u32)>);

/// What one line adds to the filter: all four entries, or nothing.
pub open spec fn add_line(
    p: PatternSets,
    v: Seq<(Seq<char>, usize)>,
    line: Seq<Seq<char>>,
    max_len: usize,
) -> PatternSets {
    if accepted(v, line, max_len) {
        let c = codes_of(v, line);
        (
            p.0.insert(line.len() as usize),
            p.1.insert(c[0]),
            p.2.insert(c.last()),
            p.3.insert(pair_of(v, line)),
        )
    } else {
        p
    }
}

/// The filter compiled from a list of lines.
pub open spec fn compiled(
    v: Seq<(Seq<char>, usize)>,
    lines: Seq<Seq<Seq<char>>>,
    max_len: usize,
) -> PatternSets
    decreases lines.len(),
{
    if lines.len() == 0 {
        (Set::empty(), Set::empty(), Set::empty(), Set::empty())
    } else {
        add_line(compiled(v, lines.drop_last(), max_len), v, lines.last(), max_len)
    }
}

/// Whether `x` is in `v`.
pub fn contains_usize(v: &Vec<usize>, x: usize) -> (r: bool)
    ensures
        r == v@.contains(x),
{
    let mut k: usize = 0;
    while k < v.len()
        invariant
            k <= v.len(),
            forall|a: int| 0 <= a < k ==> v@[a] != x,
        decreases v.len() - k,
    {
        if v[k] == x {
            return true;
        }
        k += 1;
    }
    false
}

/// Whether the pair `x` is in `v`.
pub fn contains_pair(v: &Vec<(u32, u32)>, x: (u32, u32)) -> (r: bool)
    ensures
        r == v@.contains(x),
{
    let mut k: usize = 0;
    while k < v.len()
        invariant
            k <= v.len(),
            forall|a: int| 0 <= a < k ==> v@[a] != x,
        decreases v.len() - k,
    {
        if v[k].0 == x.0 && v[k].1 == x.1 {
            return true;
        }
        k += 1;
    }
    false
}

fn insert_usize(v: &mut Vec<usize>, x: usize)
    requires
        old(v)@.no_duplicates(),
    ensures
        final(v)@.no_duplicates(),
        final(v)@.to_set() == old(v)@.to_set().insert(x),
{
    let ghost s = v@;
    if !contains_usize(v, x) {
        v.push(x);
        proof {
            s.lemma_push_to_set_commute(x);
        }
    } else {
        assert(s.to_set().insert(x) =~= s.to_set());
    }
}

fn insert_pair(v: &mut Vec<(u32, u32)>, x: (u32, u32))
    requires
        old(v)@.no_duplicates(),
    ensures
        final(v)@.no_duplicates(),
        final(v)@.to_set() == old(v)@.to_set().insert(x),
{
    let ghost s = v@;
    if !contains_pair(v, x) {
        v.push(x);
        proof {
            s.lemma_push_to_set_commute(x);
        }
    } else {
        assert(s.to_set().insert(x) =~= s.to_set());
    }
}

/// The compiled filter: four sets, each held as a list without repeats.
pub struct Patterns {
    pub lengths: Vec<usize>,
    pub b_ints: Vec<usize>,
    pub e_ints: Vec<usize>,
    pub checksums: Vec<(u32, u32)>,
}

impl View for Patterns {
    type V = PatternSets;

    open spec fn view(&self) -> PatternSets {
        (
            self.lengths@.to_set(),
            self.b_ints@.to_set(),
            self.e_ints@.to_set(),
            self.checksums@.to_set(),
        )
    }
}

/// Resolves every token of a line to its code; `None` when one has none.
pub fn resolve_line(vocab: &Vocabulary, line: &Vec<String>) -> (r: Option<Vec<usize>>)
    requires
        vocab.wf(),
    ensures
        r.is_some() == resolvable(vocab@, views(line@)),
        r.is_some() ==> r.unwrap()@ == codes_of(vocab@, views(line@)),
{
    let mut codes: Vec<usize> = Vec::new();
    let mut k: usize = 0;
    while k < line.len()
        invariant
            vocab.wf(),
            k <= line.len(),
            codes@.len() == k,
            forall|a: int| 0 <= a < k ==> #[trigger] code_in(vocab@, line@[a]@) == Some(codes@[a]),
        decreases line.len() - k,
    {
        match vocab.lookup(&line[k]) {
            Some(c) => codes.push(c),
            None => {
                assert(code_in(vocab@, views(line@)[k as int]).is_none());
                return None;
            },
        }
        k += 1;
    }
    assert(codes@ =~= codes_of(vocab@, views(line@)));
    Some(codes)
}

impl Patterns {
    pub open spec fn wf(&self) -> bool {
        &&& self.lengths@.no_duplicates()
        &&& self.b_ints@.no_duplicates()
        &&& self.e_ints@.no_duplicates()
        &&& self.checksums@.no_duplicates()
    }

    /// An empty filter.
    pub fn new() -> (r: Patterns)
        ensures
            r.wf(),
            r@ == (Set::<usize>::empty(), Set::<usize>::empty(), Set::<usize>::empty(), Set::<
                (u32, u32),
            >::empty()),
    {
        let r = Patterns {
            lengths: Vec::new(),
            b_ints: Vec::new(),
            e_ints: Vec::new(),
            checksums: Vec::new(),
        };
        assert(r@.0 =~= Set::<usize>::empty());
        assert(r@.1 =~= Set::<usize>::empty());
        assert(r@.2 =~= Set::<usize>::empty());
        assert(r@.3 =~= Set::<(u32, u32)>::empty());
        r
    }

    /// Compiles pattern lines (each a list of tokens) against a vocabulary.
    pub fn compile(vocab: &Vocabulary, lines: &Vec<Vec<String>>, max_len: usize) -> (r: Patterns)
        requires
            vocab.wf(),
        ensures
            r.wf(),
            r@ == compiled(vocab@, line_views(lines@), max_len),
    {
        let ghost all = line_views(lines@);
        let mut p = Patterns::new();
        let mut i: usize = 0;
        while i < lines.len()
            invariant
                vocab.wf(),
                i <= lines.len(),
                all == line_views(lines@),
                p.wf(),
                p@ == compiled(vocab@, all.subrange(0, i as int), max_len),
            decreases lines.len() - i,
        {
            let line = &lines[i];
            proof {
                let s = all.subrange(0, i + 1);
                assert(s.drop_last() =~= all.subrange(0, i as int));
                assert(s.last() == views(line@));
            }
            let p_len = line.len();
            if p_len > 0 && p_len <= max_len {
                match resolve_line(vocab, line) {
                    Some(codes) => {
                        let text = join_span(line, 0, p_len);
                        proof {
                            assert(views(line@).subrange(0, p_len as int) =~= views(line@));
                        }
                        let p_c = text_crc(text.as_str());
                        let p_f = fletcher_codes(codes.as_slice());
                        insert_usize(&mut p.lengths, p_len);
                        insert_usize(&mut p.b_ints, codes[0]);
                        insert_usize(&mut p.e_ints, codes[p_len - 1]);
                        insert_pair(&mut p.checksums, (p_c, p_f));
                    },
                    None => {},
                }
            }
            i += 1;
        }
        proof {
            assert(all.subrange(0, lines@.len() as int) =~= all);
        }
        p
    }
}

} // verus!
