//! The query engine: candidate spans of a tokenized sentence, and the
//! reduction to maximal spans.
use vstd::prelude::*;
use crate::checksum::{fletcher_codes, fletcher_of, text_checksum, text_crc};
use crate::patterns::{
    accepted, codes_of, compiled, contains_pair, contains_usize, pair_of, resolvable, PatternSets,
    Patterns,
};
use crate::vocab::{code_in, join_span, joined, line_views, occurrences, total_tokens, views, Vocabulary};

verus! {

/// Everything but the length test that a span `[i, j]` must pass.
pub open spec fn span_passes(
    v: Seq<(Seq<char>, usize)>,
    p: PatternSets,
    toks: Seq<Seq<char>>,
    i: int,
    j: int,
) -> bool {
    &&& 0 <= i <= j < toks.len()
    &&& resolvable(v, toks.subrange(i, j + 1))
    &&& p.1.contains(code_in(v, toks[i]).unwrap())
    &&& p.2.contains(code_in(v, toks[j]).unwrap())
    &&& p.3.contains(pair_of(v, toks.subrange(i, j + 1)))
}

/// The span `[i, j]` of the sentence passes the filter.
pub open spec fn is_candidate(
    v: Seq<(Seq<char>, usize)>,
    p: PatternSets,
    toks: Seq<Seq<char>>,
    i: int,
    j: int,
) -> bool {
    &&& 0 <= i <= j < toks.len()
    &&& p.0.contains((j - i + 1) as usize)
    &&& span_passes(v, p, toks, i, j)
}

/// All candidate spans of a sentence.
pub open spec fn candidate_set(
    v: Seq<(Seq<char>, usize)>,
    p: PatternSets,
    toks: Seq<Seq<char>>,
) -> Set<(usize, usize)> {
    Set::new(|s: (usize, usize)| is_candidate(v, p, toks, s.0 as int, s.1 as int))
}

/// `outer` is a different span that contains `inner`.
pub open spec fn covers(outer: (usize, usize), inner: (usize, usize)) -> bool {
    outer != inner && outer.0 <= inner.0 && inner.1 <= outer.1
}

/// The spans of `s` that no other span of `s` contains.
pub open spec fn maximal_spans(s: Set<(usize, usize)>) -> Set<(usize, usize)> {
    s.filter(|x: (usize, usize)| !(exists|y: (usize, usize)| s.contains(y) && covers(y, x)))
}

/// The candidate spans of a sentence, reduced to the maximal ones when
/// `remove_subset` holds.
pub open spec fn kept_spans(
    v: Seq<(Seq<char>, usize)>,
    p: PatternSets,
    toks: Seq<Seq<char>>,
    remove_subset: bool,
) -> Set<(usize, usize)> {
    if remove_subset {
        maximal_spans(candidate_set(v, p, toks))
    } else {
        candidate_set(v, p, toks)
    }
}

/// The characters of each string.
pub open spec fn strings_view(r: Seq<String>) -> Seq<Seq<char>> {
    r.map_values(|x: String| x@)
}

/// The texts of a list of spans of the sentence.
pub open spec fn span_texts(toks: Seq<Seq<char>>, sp: Seq<(usize, usize)>) -> Seq<Seq<char>> {
    sp.map_values(|s: (usize, usize)| span_text(toks, s))
}

/// The text of the span `s` of the sentence.
pub open spec fn span_text(toks: Seq<Seq<char>>, s: (usize, usize)) -> Seq<char> {
    joined(toks.subrange(s.0 as int, s.1 + 1))
}

/// The code a corpus-built vocabulary gives a token: its number of occurrences.
pub open spec fn corpus_code(lines: Seq<Seq<Seq<char>>>, t: Seq<char>) -> Option<usize> {
    if occurrences(lines, t) > 0 {
        Some(occurrences(lines, t) as usize)
    } else {
        None
    }
}

/// Keeps the spans that no other span in `c` contains.
#[verifier::spinoff_prover]
pub fn remove_subsets(c: &Vec<(usize, usize)>) -> (r: Vec<(usize, usize)>)
    ensures
        r@.to_set() == maximal_spans(c@.to_set()),
        c@.no_duplicates() ==> r@.no_duplicates(),
{
    let ghost cs = c@.to_set();
    let mut r: Vec<(usize, usize)> = Vec::new();
    let mut a: usize = 0;
    while a < c.len()
        invariant
            a <= c.len(),
            cs == c@.to_set(),
            forall|x: (usize, usize)|
                #![trigger r@.contains(x)]
                r@.contains(x) <==> (c@.subrange(0, a as int).contains(x) && maximal_spans(
                    cs,
                ).contains(x)),
            c@.no_duplicates() ==> r@.no_duplicates(),
            forall|k: int| 0 <= k < r@.len() ==> #[trigger] c@.subrange(0, a as int).contains(r@[k]),
        decreases c.len() - a,
    {
        let x = c[a];
        let mut covered = false;
        let mut b: usize = 0;
        while b < c.len()
            invariant
                a < c.len(),
                x == c@[a as int],
                b <= c.len(),
                covered <==> exists|k: int| 0 <= k < b && covers(#[trigger] c@[k], x),
            decreases c.len() - b,
        {
            let y = c[b];
            if !(y.0 == x.0 && y.1 == x.1) && y.0 <= x.0 && x.1 <= y.1 {
                covered = true;
            }
            b += 1;
        }
        let ghost pre = c@.subrange(0, a as int);
        let ghost post = c@.subrange(0, a + 1);
        proof {
            assert(post =~= pre.push(x));
            assert(post[a as int] == x);
            assert forall|y: (usize, usize)| pre.contains(y) implies post.contains(y) by {
                let w = choose|w: int| 0 <= w < pre.len() && pre[w] == y;
                assert(post[w] == y);
            }
            assert forall|y: (usize, usize)| post.contains(y) implies pre.contains(y) || y == x by {
                let w = choose|w: int| 0 <= w < post.len() && post[w] == y;
                if w < a {
                    assert(pre[w] == y);
                }
            }
            if covered {
                let k = choose|k: int| 0 <= k < b && covers(#[trigger] c@[k], x);
                assert(cs.contains(c@[k]));
                assert(!maximal_spans(cs).contains(x));
            } else {
                assert forall|y: (usize, usize)| cs.contains(y) implies !covers(y, x) by {
                    let k = choose|k: int| 0 <= k < c@.len() && c@[k] == y;
                    assert(!covers(c@[k], x));
                }
                assert(cs.contains(x));
                assert(maximal_spans(cs).contains(x));
            }
            if c@.no_duplicates() {
                assert forall|w: int| 0 <= w < pre.len() implies pre[w] != x by {
                    assert(pre[w] == c@[w]);
                }
            }
        }
        let ghost old_r = r@;
        if !covered {
            r.push(x);
            proof {
                if c@.no_duplicates() {
                    assert(!pre.contains(x));
                    assert(!old_r.contains(x));
                }
                assert forall|y: (usize, usize)| r@.contains(y) <==> old_r.contains(y) || y == x by {
                    if r@.contains(y) {
                        let w = choose|w: int| 0 <= w < r@.len() && r@[w] == y;
                        if w < old_r.len() {
                            assert(old_r[w] == y);
                        }
                    }
                    if old_r.contains(y) {
                        let w = choose|w: int| 0 <= w < old_r.len() && old_r[w] == y;
                        assert(r@[w] == y);
                    }
                    if y == x {
                        assert(r@[old_r.len() as int] == x);
                    }
                }
            }
        }
        proof {
            assert forall|y: (usize, usize)| #[trigger] r@.contains(y) <==> (post.contains(y)
                && maximal_spans(cs).contains(y)) by {
                assert(old_r.contains(y) <==> (pre.contains(y) && maximal_spans(cs).contains(y)));
                if post.contains(y) && !pre.contains(y) {
                    assert(y == x);
                }
                if pre.contains(y) {
                    assert(post.contains(y));
                }
                if y == x {
                    assert(post.contains(x));
                }
                if !covered {
                    assert(r@ == old_r.push(x));
                    if r@.contains(y) {
                        let w = choose|w: int| 0 <= w < r@.len() && r@[w] == y;
                        if w < old_r.len() {
                            assert(old_r[w] == y);
                        }
                    }
                    if old_r.contains(y) {
                        let w = choose|w: int| 0 <= w < old_r.len() && old_r[w] == y;
                        assert(r@[w] == y);
                    }
                    if y == x {
                        assert(r@[old_r.len() as int] == x);
                    }
                } else {
                    assert(r@ == old_r);
                }
            }
            assert forall|k: int| 0 <= k < r@.len() implies #[trigger] post.contains(r@[k]) by {
                if k < old_r.len() {
                    assert(r@[k] == old_r[k]);
                    assert(pre.contains(old_r[k]));
                }
            }
        }
        a += 1;
    }
    proof {
        assert(c@.subrange(0, c@.len() as int) =~= c@);
        assert(r@.to_set() =~= maximal_spans(cs));
    }
    r
}

/// Reducing to maximal spans a second time changes nothing, and no span that
/// survives is contained in another that survives.
pub proof fn lemma_maximal_idempotent(s: Set<(usize, usize)>)
    ensures
        maximal_spans(maximal_spans(s)) == maximal_spans(s),
        forall|x: (usize, usize), y: (usize, usize)|
            maximal_spans(s).contains(x) && maximal_spans(s).contains(y) ==> !covers(y, x),
{
    let m = maximal_spans(s);
    assert(maximal_spans(m) =~= m);
}

/// A line with a token that has no code adds nothing to the compiled filter.
pub proof fn lemma_unresolvable_line_adds_nothing(
    v: Seq<(Seq<char>, usize)>,
    lines: Seq<Seq<Seq<char>>>,
    line: Seq<Seq<char>>,
    max_len: usize,
)
    requires
        exists|k: int| 0 <= k < line.len() && code_in(v, line[k]).is_none(),
    ensures
        compiled(v, lines.push(line), max_len) == compiled(v, lines, max_len),
{
    assert(lines.push(line).drop_last() =~= lines);
    let k = choose|k: int| 0 <= k < line.len() && code_in(v, line[k]).is_none();
    assert(!code_in(v, line[k]).is_some());
    assert(!resolvable(v, line));
}

/// An accepted line puts its length, boundary codes and checksum pair into
/// the compiled filter.
pub proof fn lemma_accepted_line_compiled(
    v: Seq<(Seq<char>, usize)>,
    lines: Seq<Seq<Seq<char>>>,
    max_len: usize,
    k: int,
)
    requires
        0 <= k < lines.len(),
        accepted(v, lines[k], max_len),
    ensures
        compiled(v, lines, max_len).0.contains(lines[k].len() as usize),
        compiled(v, lines, max_len).1.contains(codes_of(v, lines[k])[0]),
        compiled(v, lines, max_len).2.contains(codes_of(v, lines[k]).last()),
        compiled(v, lines, max_len).3.contains(pair_of(v, lines[k])),
    decreases lines.len(),
{
    if k < lines.len() - 1 {
        lemma_accepted_line_compiled(v, lines.drop_last(), max_len, k);
    }
}

/// A sentence that holds a compiled line verbatim has a candidate span
/// covering it.
pub proof fn lemma_compiled_pattern_found(
    v: Seq<(Seq<char>, usize)>,
    lines: Seq<Seq<Seq<char>>>,
    max_len: usize,
    k: int,
    toks: Seq<Seq<char>>,
    i: int,
)
    requires
        0 <= k < lines.len(),
        accepted(v, lines[k], max_len),
        0 <= i,
        i + lines[k].len() <= toks.len(),
        toks.subrange(i, i + lines[k].len()) == lines[k],
        toks.len() <= usize::MAX,
    ensures
        is_candidate(v, compiled(v, lines, max_len), toks, i, i + lines[k].len() - 1),
        candidate_set(v, compiled(v, lines, max_len), toks).contains(
            (i as usize, (i + lines[k].len() - 1) as usize),
        ),
{
    lemma_accepted_line_compiled(v, lines, max_len, k);
    let l = lines[k];
    let j = i + l.len() - 1;
    assert(toks.subrange(i, j + 1) == l);
    assert(toks[i] == l[0]);
    assert(toks[j] == l[l.len() - 1]);
    assert(codes_of(v, l)[0] == code_in(v, toks[i]).unwrap());
    assert(codes_of(v, l).last() == code_in(v, toks[j]).unwrap());
    let sp = (i as usize, j as usize);
    assert(is_candidate(v, compiled(v, lines, max_len), toks, sp.0 as int, sp.1 as int));
}

/// A candidate span has a compiled length, a compiled first code and last
/// code, and no token without a code.
pub proof fn lemma_candidate_passes_filters(
    v: Seq<(Seq<char>, usize)>,
    p: PatternSets,
    toks: Seq<Seq<char>>,
    s: (usize, usize),
)
    requires
        candidate_set(v, p, toks).contains(s),
    ensures
        s.0 <= s.1 < toks.len(),
        p.0.contains((s.1 - s.0 + 1) as usize),
        p.1.contains(code_in(v, toks[s.0 as int]).unwrap()),
        p.2.contains(code_in(v, toks[s.1 as int]).unwrap()),
        forall|k: int| s.0 <= k <= s.1 ==> #[trigger] code_in(v, toks[k]).is_some(),
{
    let sub = toks.subrange(s.0 as int, s.1 + 1);
    assert forall|k: int| s.0 <= k <= s.1 implies #[trigger] code_in(v, toks[k]).is_some() by {
        assert(sub[k - s.0] == toks[k]);
        assert(code_in(v, sub[k - s.0]).is_some());
    }
}

/// A phrase matcher: a vocabulary and the filter compiled against it.
pub struct PhraseMatcher {
    pub vocab: Vocabulary,
    /// The tokens by code, highest first; kept for inspection only.
    pub inv_vocab: Vec<String>,
    pub patterns: Patterns,
}

impl PhraseMatcher {
    pub open spec fn wf(&self) -> bool {
        self.vocab.wf() && self.patterns.wf()
    }

    /// A matcher over a vocabulary and filter built or loaded elsewhere.
    pub fn from_parts(vocab: Vocabulary, patterns: Patterns) -> (r: PhraseMatcher)
        ensures
            r.vocab == vocab,
            r.patterns == patterns,
            r.inv_vocab@.len() == 0,
    {
        PhraseMatcher { vocab, inv_vocab: Vec::new(), patterns }
    }

    /// Builds the vocabulary (from `vocab_lines`' first tokens if given, else
    /// by counting the tokens of `pattern_lines`), then compiles
    /// `pattern_lines` against it.
    pub fn new(
        pattern_lines: &Vec<Vec<String>>,
        vocab_lines: Option<&Vec<Vec<String>>>,
        max_len: usize,
    ) -> (r: PhraseMatcher)
        requires
            total_tokens(line_views(pattern_lines@)) <= usize::MAX,
        ensures
            r.wf(),
            match vocab_lines {
                Some(vl) => r.vocab@ == crate::vocab::firsts_vocab(line_views(vl@)),
                None => forall|t: Seq<char>|
                    #![trigger r.vocab.code(t)]
                    r.vocab.code(t) == corpus_code(line_views(pattern_lines@), t),
            },
            r.vocab.inverse_of(r.inv_vocab@),
            r.patterns@ == compiled(r.vocab@, line_views(pattern_lines@), max_len),
    {
        let vocab = match vocab_lines {
            Some(vl) => Vocabulary::read_vocab(vl),
            None => Vocabulary::build_vocab(pattern_lines),
        };
        let inv_vocab = vocab.inverse();
        let patterns = Patterns::compile(&vocab, pattern_lines, max_len);
        PhraseMatcher { vocab, inv_vocab, patterns }
    }

    /// Replaces the filter with the one compiled from `lines`.
    pub fn compile(&mut self, lines: &Vec<Vec<String>>, max_len: usize)
        requires
            old(self).wf(),
        ensures
            final(self).wf(),
            final(self).vocab == old(self).vocab,
            final(self).patterns@ == compiled(old(self).vocab@, line_views(lines@), max_len),
    {
        self.patterns = Patterns::compile(&self.vocab, lines, max_len);
    }

    /// Text checksum: CRC-32 of the text's bytes, modulo `0xFFFFFFFF`.
    pub fn crc32(&self, text: &str) -> (r: u32)
        ensures
            r == text_checksum(text@),
    {
        text_crc(text)
    }

    /// Sequence checksum of a list of codes.
    pub fn fletcher(&self, arr: &[usize]) -> (r: u32)
        ensures
            r == fletcher_of(arr@),
    {
        fletcher_codes(arr)
    }

    /// The code of each token of the sentence, `None` where it has none.
    fn sentence_codes(&self, toks: &Vec<String>) -> (r: Vec<Option<usize>>)
        requires
            self.wf(),
        ensures
            r@.len() == toks@.len(),
            forall|a: int| 0 <= a < toks@.len() ==> r@[a] == #[trigger] code_in(self.vocab@, toks@[a]@),
    {
        let mut r: Vec<Option<usize>> = Vec::new();
        let mut k: usize = 0;
        while k < toks.len()
            invariant
                self.wf(),
                k <= toks.len(),
                r@.len() == k,
                forall|a: int| 0 <= a < k ==> r@[a] == #[trigger] code_in(self.vocab@, toks@[a]@),
            decreases toks.len() - k,
        {
            r.push(self.vocab.lookup(&toks[k]));
            k += 1;
        }
        r
    }

    /// Whether the span `[i, j]` passes every test but the length test.
    #[verifier::spinoff_prover]
    fn check_span(&self, toks: &Vec<String>, codes: &Vec<Option<usize>>, i: usize, j: usize) -> (r:
        bool)
        requires
            self.wf(),
            i <= j < toks.len(),
            codes@.len() == toks@.len(),
            forall|a: int| 0 <= a < toks@.len() ==> codes@[a] == #[trigger] code_in(self.vocab@, toks@[a]@),
        ensures
            r == span_passes(self.vocab@, self.patterns@, views(toks@), i as int, j as int),
    {
        let ghost v = self.vocab@;
        let ghost sub = views(toks@).subrange(i as int, j + 1);
        let mut span: Vec<usize> = Vec::new();
        let mut k: usize = i;
        while k <= j
            invariant
                i <= k <= j + 1,
                j < toks.len(),
                codes@.len() == toks@.len(),
                forall|a: int| 0 <= a < toks@.len() ==> codes@[a] == #[trigger] code_in(v, toks@[a]@),
                sub == views(toks@).subrange(i as int, j + 1),
                v == self.vocab@,
                span@.len() == k - i,
                forall|a: int| 0 <= a < k - i ==> code_in(v, #[trigger] sub[a]) == Some(span@[a]),
            decreases j + 1 - k,
        {
            proof {
                assert(sub[k - i] == toks@[k as int]@);
            }
            match codes[k] {
                Some(c) => span.push(c),
                None => {
                    proof {
                        assert(sub[k - i] == toks@[k as int]@);
                        assert(!code_in(v, sub[k - i]).is_some());
                        assert(!resolvable(v, sub));
                        assert(!span_passes(v, self.patterns@, views(toks@), i as int, j as int));
                    }
                    return false;
                },
            }
            k += 1;
        }
        proof {
            assert(resolvable(v, sub));
            assert(span@ =~= codes_of(v, sub));
        }
        let b = span[0];
        let e = span[j - i];
        proof {
            assert(sub[0] == views(toks@)[i as int]);
            assert(sub[j - i] == views(toks@)[j as int]);
            assert(code_in(v, sub[0]) == Some(span@[0]));
            assert(code_in(v, sub[j - i]) == Some(span@[j - i]));
            assert(code_in(v, views(toks@)[i as int]) == Some(b));
            assert(code_in(v, views(toks@)[j as int]) == Some(e));
            assert(self.patterns@.1.contains(b) == self.patterns.b_ints@.contains(b));
            assert(self.patterns@.2.contains(e) == self.patterns.e_ints@.contains(e));
        }
        if !contains_usize(&self.patterns.b_ints, b) || !contains_usize(&self.patterns.e_ints, e) {
            return false;
        }
        let text = join_span(toks, i, j + 1);
        let p_c = text_crc(text.as_str());
        let p_f = fletcher_codes(span.as_slice());
        contains_pair(&self.patterns.checksums, (p_c, p_f))
    }

    /// Every candidate span of a tokenized sentence, each once.
    #[verifier::spinoff_prover]
    pub fn candidate_spans(&self, toks: &Vec<String>) -> (r: Vec<(usize, usize)>)
        requires
            self.wf(),
        ensures
            r@.no_duplicates(),
            r@.to_set() == candidate_set(self.vocab@, self.patterns@, views(toks@)),
    {
        let ghost v = self.vocab@;
        let ghost p = self.patterns@;
        let ghost tv = views(toks@);
        let codes = self.sentence_codes(toks);
        let n = toks.len();
        let mut r: Vec<(usize, usize)> = Vec::new();
        let mut i: usize = 0;
        while i < n
            invariant
                self.wf(),
                v == self.vocab@,
                p == self.patterns@,
                tv == views(toks@),
                n == toks.len(),
                i <= n,
                codes@.len() == toks@.len(),
                forall|a: int| 0 <= a < toks@.len() ==> codes@[a] == #[trigger] code_in(v, toks@[a]@),
                r@.no_duplicates(),
                forall|s: (usize, usize)|
                    #![trigger r@.contains(s)]
                    r@.contains(s) <==> (is_candidate(v, p, tv, s.0 as int, s.1 as int) && s.0 < i),
            decreases n - i,
        {
            let mut m: usize = 0;
            while m < self.patterns.lengths.len()
                invariant
                    self.wf(),
                    v == self.vocab@,
                    p == self.patterns@,
                    tv == views(toks@),
                    n == toks.len(),
                    i < n,
                    m <= self.patterns.lengths.len(),
                    codes@.len() == toks@.len(),
                    forall|a: int| 0 <= a < toks@.len() ==> codes@[a] == #[trigger] code_in(v, toks@[a]@),
                    r@.no_duplicates(),
                    forall|s: (usize, usize)|
                        #![trigger r@.contains(s)]
                        r@.contains(s) <==> (is_candidate(v, p, tv, s.0 as int, s.1 as int) && (s.0
                            < i || (s.0 == i && self.patterns.lengths@.subrange(0, m as int).contains(
                            (s.1 - s.0 + 1) as usize,
                        )))),
                decreases self.patterns.lengths.len() - m,
            {
                let l = self.patterns.lengths[m];
                let ghost lens = self.patterns.lengths@;
                proof {
                    assert(lens.subrange(0, m + 1) =~= lens.subrange(0, m as int).push(l));
                    assert(!lens.subrange(0, m as int).contains(l));
                }
                let ghost old_r = r@;
                let mut found = false;
                if l > 0 && l <= n - i {
                    let j = i + l - 1;
                    if self.check_span(toks, &codes, i, j) {
                        proof {
                            assert(!r@.contains((i, j)));
                            assert(p.0.contains(l));
                            assert(is_candidate(v, p, tv, i as int, j as int));
                        }
                        r.push((i, j));
                        found = true;
                        proof {
                            assert forall|y: (usize, usize)| r@.contains(y) <==> old_r.contains(y) || y
                                == (i, j) by {
                                if r@.contains(y) {
                                    let w = choose|w: int| 0 <= w < r@.len() && r@[w] == y;
                                    if w < old_r.len() {
                                        assert(old_r[w] == y);
                                    }
                                }
                                if old_r.contains(y) {
                                    let w = choose|w: int| 0 <= w < old_r.len() && old_r[w] == y;
                                    assert(r@[w] == y);
                                }
                                if y == (i, j) {
                                    assert(r@[old_r.len() as int] == y);
                                }
                            }
                        }
                    }
                }
                proof {
                    let lens0 = lens.subrange(0, m as int);
                    let lens1 = lens.subrange(0, m + 1);
                    assert forall|y: usize| #[trigger] lens1.contains(y) <==> lens0.contains(y) || y == l by {
                        if lens1.contains(y) {
                            let w = choose|w: int| 0 <= w < lens1.len() && lens1[w] == y;
                            if w < m {
                                assert(lens0[w] == y);
                            }
                        }
                        if lens0.contains(y) {
                            let w = choose|w: int| 0 <= w < lens0.len() && lens0[w] == y;
                            assert(lens1[w] == y);
                        }
                        if y == l {
                            assert(lens1[m as int] == l);
                        }
                    }
                    assert forall|s: (usize, usize)| #[trigger] r@.contains(s) <==> (is_candidate(
                        v,
                        p,
                        tv,
                        s.0 as int,
                        s.1 as int,
                    ) && (s.0 < i || (s.0 == i && lens1.contains((s.1 - s.0 + 1) as usize)))) by {
                        assert(lens1.contains((s.1 - s.0 + 1) as usize) <==> lens0.contains(
                            (s.1 - s.0 + 1) as usize,
                        ) || (s.1 - s.0 + 1) as usize == l);
                        if found {
                            assert(r@.contains(s) <==> old_r.contains(s) || s == (i, (i + l - 1) as usize));
                        }
                    }
                }
                m += 1;
            }
            proof {
                assert(self.patterns.lengths@.subrange(0, self.patterns.lengths@.len() as int)
                    =~= self.patterns.lengths@);
            }
            i += 1;
        }
        proof {
            assert(r@.to_set() =~= candidate_set(v, p, tv));
        }
        r
    }

    /// The texts of the candidate spans of a tokenized sentence; with
    /// `remove_subset`, only of those that no other candidate contains.
    #[verifier::spinoff_prover]
    pub fn match_phrase(&self, toks: &Vec<String>, remove_subset: bool) -> (r: Vec<String>)
        requires
            self.wf(),
        ensures
            exists|sp: Seq<(usize, usize)>|
                sp.to_set() == kept_spans(self.vocab@, self.patterns@, views(toks@), remove_subset)
                    && sp.no_duplicates() && strings_view(r@) == #[trigger] span_texts(views(toks@), sp),
    {
        let c = self.candidate_spans(toks);
        proof {
            if remove_subset {
                assert(c@.no_duplicates());
            }
        }
        let spans = if remove_subset {
            remove_subsets(&c)
        } else {
            c
        };
        let ghost tv = views(toks@);
        let ghost all = candidate_set(self.vocab@, self.patterns@, tv);
        let ghost kept = kept_spans(self.vocab@, self.patterns@, tv, remove_subset);
        proof {
            assert(spans@.to_set() == kept);
            assert forall|a: int| 0 <= a < spans@.len() implies (#[trigger] spans@[a]).0 <= spans@[a].1
                && spans@[a].1 < toks@.len() by {
                assert(spans@.to_set().contains(spans@[a]));
                assert(all.contains(spans@[a]));
            }
        }
        let n = toks.len();
        let mut r: Vec<String> = Vec::new();
        let mut k: usize = 0;
        while k < spans.len()
            invariant
                k <= spans.len(),
                n == toks@.len(),
                all == candidate_set(self.vocab@, self.patterns@, tv),
                kept == kept_spans(self.vocab@, self.patterns@, tv, remove_subset),
                spans@.to_set() == kept,
                spans@.no_duplicates(),
                tv == views(toks@),
                r@.len() == k,
                forall|a: int| 0 <= a < spans@.len() ==> (#[trigger] spans@[a]).0 <= spans@[a].1,
                forall|a: int| 0 <= a < spans@.len() ==> (#[trigger] spans@[a]).1 < n,
                forall|a: int| 0 <= a < k ==> r@[a]@ == span_text(tv, #[trigger] spans@[a]),
            decreases spans.len() - k,
        {
            let s = spans[k];
            assert(spans@[k as int].0 <= spans@[k as int].1 && spans@[k as int].1 < n);
            r.push(join_span(toks, s.0, s.1 + 1));
            k += 1;
        }
        proof {
            assert(strings_view(r@) =~= span_texts(tv, spans@));
        }
        r
    }
}

} // verus!
