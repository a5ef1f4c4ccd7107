//! The vocabulary: a mapping from token strings to integer codes.
use vstd::prelude::*;
use vstd::string::*;

verus! {

/// The character sequences of a token list.
pub open spec fn views(s: Seq<String>) -> Seq<Seq<char>> {
    s.map_values(|x: String| x@)
}

/// Tokens rejoined with single spaces.
pub open spec fn joined(s: Seq<Seq<char>>) -> Seq<char>
    decreases s.len(),
{
    if s.len() == 0 {
        Seq::empty()
    } else if s.len() == 1 {
        s[0]
    } else {
        joined(s.drop_last()) + seq![' '] + s.last()
    }
}

/// The tokens `toks[start..end]`, joined with single spaces.
pub fn join_span(toks: &Vec<String>, start: usize, end: usize) -> (r: String)
    requires
        start <= end <= toks.len(),
    ensures
        r@ == joined(views(toks@).subrange(start as int, end as int)),
{
    let mut r = String::new();
    let mut k: usize = start;
    while k < end
        invariant
            start <= k <= end <= toks.len(),
            r@ == joined(views(toks@).subrange(start as int, k as int)),
        decreases end - k,
    {
        if k > start {
            proof {
                reveal_strlit(" ");
            }
            r.append(" ");
        }
        r.append(toks[k].as_str());
        proof {
            let s = views(toks@).subrange(start as int, k + 1);
            assert(s.drop_last() =~= views(toks@).subrange(start as int, k as int));
        }
        k += 1;
    }
    r
}

/// No token appears twice.
pub open spec fn keys_unique(e: Seq<(Seq<char>, usize)>) -> bool {
    forall|a: int, b: int| 0 <= a < b < e.len() ==> e[a].0 != e[b].0
}

/// The code of token `t`, if it has one.
pub open spec fn code_in(e: Seq<(Seq<char>, usize)>, t: Seq<char>) -> Option<usize> {
    if exists|k: int| 0 <= k < e.len() && e[k].0 == t {
        Some(e[choose|k: int| 0 <= k < e.len() && e[k].0 == t].1)
    } else {
        None
    }
}

pub proof fn lemma_code_at(e: Seq<(Seq<char>, usize)>, k: int)
    requires
        keys_unique(e),
        0 <= k < e.len(),
    ensures
        code_in(e, e[k].0) == Some(e[k].1),
{
    let t = e[k].0;
    let c = choose|k: int| 0 <= k < e.len() && e[k].0 == t;
    assert(c == k);
}

/// Vocabulary built from first tokens: each new first token gets the next
/// sequential code; a repeated one keeps its earliest code.
pub open spec fn firsts_vocab(lines: Seq<Seq<Seq<char>>>) -> Seq<(Seq<char>, usize)>
    decreases lines.len(),
{
    if lines.len() == 0 {
        Seq::empty()
    } else {
        let p = firsts_vocab(lines.drop_last());
        let l = lines.last();
        if l.len() == 0 || code_in(p, l[0]).is_some() {
            p
        } else {
            p.push((l[0], p.len() as usize))
        }
    }
}

/// Number of occurrences of token `t` over all lines.
pub open spec fn occurrences(lines: Seq<Seq<Seq<char>>>, t: Seq<char>) -> nat
    decreases lines.len(),
{
    if lines.len() == 0 {
        0
    } else {
        occurrences(lines.drop_last(), t) + count_in_line(lines.last(), t)
    }
}

/// Number of occurrences of token `t` in one line.
pub open spec fn count_in_line(l: Seq<Seq<char>>, t: Seq<char>) -> nat
    decreases l.len(),
{
    if l.len() == 0 {
        0
    } else {
        count_in_line(l.drop_last(), t) + if l.last() == t { 1nat } else { 0nat }
    }
}

pub proof fn lemma_count_in_line_le(l: Seq<Seq<char>>, t: Seq<char>)
    ensures
        count_in_line(l, t) <= l.len(),
    decreases l.len(),
{
    if l.len() > 0 {
        lemma_count_in_line_le(l.drop_last(), t);
    }
}

pub proof fn lemma_occurrences_le(lines: Seq<Seq<Seq<char>>>, t: Seq<char>)
    ensures
        occurrences(lines, t) <= total_tokens(lines),
    decreases lines.len(),
{
    if lines.len() > 0 {
        lemma_occurrences_le(lines.drop_last(), t);
        lemma_count_in_line_le(lines.last(), t);
    }
}

/// Changing the code at one entry leaves the codes of other tokens alone.
pub proof fn lemma_code_update(e: Seq<(Seq<char>, usize)>, k: int, c: usize, t: Seq<char>)
    requires
        keys_unique(e),
        0 <= k < e.len(),
    ensures
        keys_unique(e.update(k, (e[k].0, c))),
        t != e[k].0 ==> code_in(e.update(k, (e[k].0, c)), t) == code_in(e, t),
{
    let e2 = e.update(k, (e[k].0, c));
    assert forall|a: int, b: int| 0 <= a < b < e2.len() implies e2[a].0 != e2[b].0 by {
        assert(e2[a].0 == e[a].0 && e2[b].0 == e[b].0);
    }
    if t == e[k].0 {
    } else if exists|m: int| 0 <= m < e.len() && e[m].0 == t {
        let m = choose|m: int| 0 <= m < e.len() && e[m].0 == t;
        lemma_code_at(e, m);
        lemma_code_at(e2, m);
    } else {
        assert forall|m: int| 0 <= m < e2.len() implies e2[m].0 != t by {
            assert(e2[m].0 == e[m].0);
        }
    }
}

/// Total number of tokens over all lines.
pub open spec fn total_tokens(lines: Seq<Seq<Seq<char>>>) -> nat
    decreases lines.len(),
{
    if lines.len() == 0 {
        0
    } else {
        total_tokens(lines.drop_last()) + lines.last().len()
    }
}

/// The token lists of the lines.
pub open spec fn line_views(lines: Seq<Vec<String>>) -> Seq<Seq<Seq<char>>> {
    lines.map_values(|l: Vec<String>| views(l@))
}

/// Some string of `r` is the token `t`.
pub open spec fn lists_token(r: Seq<String>, t: Seq<char>) -> bool {
    exists|m: int| 0 <= m < r.len() && r[m]@ == t
}

/// Some position of `o` holds `t`.
pub open spec fn holds_index(o: Seq<usize>, t: int) -> bool {
    exists|m: int| 0 <= m < o.len() && o[m] == t
}

/// Token to code mapping, held as a list of entries with distinct tokens.
pub struct Vocabulary {
    pub entries: Vec<(String, usize)>,
}

impl View for Vocabulary {
    type V = Seq<(Seq<char>, usize)>;

    open spec fn view(&self) -> Seq<(Seq<char>, usize)> {
        self.entries@.map_values(|e: (String, usize)| (e.0@, e.1))
    }
}

impl Vocabulary {
    pub open spec fn wf(&self) -> bool {
        keys_unique(self@)
    }

    /// `r` lists every token once, by code from highest to lowest.
    pub open spec fn inverse_of(&self, r: Seq<String>) -> bool {
        &&& r.len() == self@.len()
        &&& forall|k: int| 0 <= k < r.len() ==> #[trigger] self.code(r[k]@).is_some()
        &&& forall|a: int, b: int|
            0 <= a < b < r.len() ==> self.code(#[trigger] r[a]@).unwrap() >= self.code(
                #[trigger] r[b]@,
            ).unwrap()
        &&& forall|k: int| 0 <= k < self@.len() ==> #[trigger] lists_token(r, self@[k].0)
    }

    /// The code of a token, if it has one.
    pub open spec fn code(&self, t: Seq<char>) -> Option<usize> {
        code_in(self@, t)
    }

    pub fn new() -> (r: Vocabulary)
        ensures
            r.wf(),
            r@ == Seq::<(Seq<char>, usize)>::empty(),
    {
        let r = Vocabulary { entries: Vec::new() };
        assert(r@ =~= Seq::<(Seq<char>, usize)>::empty());
        r
    }

    pub fn len(&self) -> (r: usize)
        ensures
            r == self@.len(),
    {
        self.entries.len()
    }

    /// Position of the entry for `t`, if any.
    fn index_of(&self, t: &String) -> (r: Option<usize>)
        requires
            self.wf(),
        ensures
            match r {
                Some(k) => k < self@.len() && self@[k as int].0 == t@,
                None => self.code(t@).is_none(),
            },
    {
        let mut k: usize = 0;
        while k < self.entries.len()
            invariant
                k <= self.entries.len(),
                forall|a: int| 0 <= a < k ==> self@[a].0 != t@,
            decreases self.entries.len() - k,
        {
            if self.entries[k].0 == *t {
                return Some(k);
            }
            k += 1;
        }
        None
    }

    /// The code of a token, if it has one.
    pub fn lookup(&self, t: &String) -> (r: Option<usize>)
        requires
            self.wf(),
        ensures
            r == self.code(t@),
    {
        match self.index_of(t) {
            Some(k) => {
                proof {
                    lemma_code_at(self@, k as int);
                }
                Some(self.entries[k].1)
            },
            None => None,
        }
    }

    /// The tokens ordered by code, highest first: position `k` of the result
    /// is the inverse-lookup key `k`.
    pub fn inverse(&self) -> (r: Vec<String>)
        requires
            self.wf(),
        ensures
            self.inverse_of(r@),
    {
        let ghost e = self@;
        let n = self.entries.len();
        let mut order: Vec<usize> = Vec::new();
        let mut i: usize = 0;
        while i < n
            invariant
                i <= n,
                n == e.len(),
                order@.len() == i,
                forall|m: int| 0 <= m < i ==> order@[m] == m,
            decreases n - i,
        {
            order.push(i);
            i += 1;
        }
        proof {
            assert forall|t: int| 0 <= t < n implies #[trigger] holds_index(order@, t) by {
                assert(order@[t] == t);
            }
        }
        let mut a: usize = 0;
        while a < n
            invariant
                a <= n,
                n == e.len(),
                e == self@,
                order@.len() == n,
                forall|m: int| 0 <= m < n ==> #[trigger] order@[m] < n,
                forall|t: int| 0 <= t < n ==> #[trigger] holds_index(order@, t),
                forall|x: int, y: int|
                    0 <= x < a && x < y < n ==> e[#[trigger] order@[x] as int].1 >= e[#[trigger] order@[y] as int].1,
            decreases n - a,
        {
            let mut best: usize = a;
            let mut b: usize = a + 1;
            while b < n
                invariant
                    a <= best < b <= n,
                    a < n,
                    n == e.len(),
                    e == self@,
                    order@.len() == n,
                    forall|m: int| 0 <= m < n ==> #[trigger] order@[m] < n,
                    forall|y: int| a <= y < b ==> e[order@[best as int] as int].1 >= e[#[trigger] order@[y] as int].1,
                decreases n - b,
            {
                if self.entries[order[b]].1 > self.entries[order[best]].1 {
                    best = b;
                }
                b += 1;
            }
            let ghost old_order = order@;
            let x = order[a];
            let y = order[best];
            order.set(a, y);
            order.set(best, x);
            proof {
                assert forall|t: int| 0 <= t < n implies #[trigger] holds_index(order@, t) by {
                    assert(holds_index(old_order, t));
                    let m = choose|m: int| 0 <= m < n && old_order[m] == t;
                    if m == a {
                        assert(order@[best as int] == t);
                    } else if m == best {
                        assert(order@[a as int] == t);
                    } else {
                        assert(order@[m] == t);
                    }
                }
                assert forall|p: int, q: int|
                    0 <= p < a + 1 && p < q < n implies e[#[trigger] order@[p] as int].1 >= e[#[trigger] order@[q] as int].1 by {
                    if p < a {
                        if q == best {
                            assert(order@[q] == old_order[a as int]);
                        } else if q == a {
                            assert(order@[q] == old_order[best as int]);
                        } else {
                            assert(order@[q] == old_order[q]);
                        }
                        assert(order@[p] == old_order[p]);
                    } else {
                        if q == best {
                            assert(order@[q] == old_order[a as int]);
                        } else {
                            assert(order@[q] == old_order[q]);
                        }
                    }
                }
            }
            a += 1;
        }
        let mut r: Vec<String> = Vec::new();
        let mut k: usize = 0;
        while k < n
            invariant
                k <= n,
                n == e.len(),
                e == self@,
                self.wf(),
                order@.len() == n,
                forall|m: int| 0 <= m < n ==> #[trigger] order@[m] < n,
                forall|t: int| 0 <= t < n ==> #[trigger] holds_index(order@, t),
                forall|x: int, y: int|
                    0 <= x < y < n ==> e[#[trigger] order@[x] as int].1 >= e[#[trigger] order@[y] as int].1,
                r@.len() == k,
                forall|m: int| 0 <= m < k ==> #[trigger] r@[m]@ == e[order@[m] as int].0,
            decreases n - k,
        {
            r.push(self.entries[order[k]].0.clone());
            k += 1;
        }
        proof {
            assert forall|m: int| 0 <= m < r@.len() implies #[trigger] self.code(r@[m]@) == Some(
                e[order@[m] as int].1,
            ) by {
                lemma_code_at(e, order@[m] as int);
            }
            assert forall|t: int| 0 <= t < e.len() implies #[trigger] lists_token(r@, e[t].0) by {
                assert(holds_index(order@, t));
                let m = choose|m: int| 0 <= m < n && order@[m] == t;
                assert(r@[m]@ == e[t].0);
            }
        }
        r
    }

    /// Builds a vocabulary from the first token of each line, with
    /// sequential codes in line order.
    pub fn read_vocab(lines: &Vec<Vec<String>>) -> (r: Vocabulary)
        ensures
            r.wf(),
            r@ == firsts_vocab(line_views(lines@)),
    {
        let mut v = Vocabulary::new();
        let mut i: usize = 0;
        while i < lines.len()
            invariant
                i <= lines.len(),
                v.wf(),
                v@ == firsts_vocab(line_views(lines@).subrange(0, i as int)),
            decreases lines.len() - i,
        {
            let line = &lines[i];
            proof {
                let s = line_views(lines@).subrange(0, i + 1);
                assert(s.drop_last() =~= line_views(lines@).subrange(0, i as int));
                assert(s.last() == views(line@));
            }
            if line.len() > 0 {
                let t = &line[0];
                match v.index_of(t) {
                    None => {
                        let ghost old_v = v@;
                        let n = v.entries.len();
                        v.entries.push((t.clone(), n));
                        proof {
                            assert(v@ =~= old_v.push((t@, n)));
                            assert forall|a: int, b: int| 0 <= a < b < v@.len() implies v@[a].0 != v@[b].0 by {
                                if b == old_v.len() {
                                    assert(old_v[a].0 != t@);
                                }
                            }
                        }
                    },
                    Some(k) => {
                        proof {
                            lemma_code_at(v@, k as int);
                        }
                    },
                }
            }
            i += 1;
        }
        proof {
            assert(line_views(lines@).subrange(0, lines@.len() as int) =~= line_views(lines@));
        }
        v
    }

    /// Builds a vocabulary from a corpus: each token's code is the number of
    /// times it occurs in the corpus.
    pub fn build_vocab(lines: &Vec<Vec<String>>) -> (r: Vocabulary)
        requires
            total_tokens(line_views(lines@)) <= usize::MAX,
        ensures
            r.wf(),
            forall|t: Seq<char>|
                #![trigger r.code(t)]
                r.code(t) == if occurrences(line_views(lines@), t) > 0 {
                    Some(occurrences(line_views(lines@), t) as usize)
                } else {
                    None::<usize>
                },
    {
        let ghost all = line_views(lines@);
        let mut v = Vocabulary::new();
        let mut i: usize = 0;
        while i < lines.len()
            invariant
                i <= lines.len(),
                all == line_views(lines@),
                total_tokens(all) <= usize::MAX,
                v.wf(),
                forall|t: Seq<char>|
                    #![trigger v.code(t)]
                    v.code(t) == if occurrences(all.subrange(0, i as int), t) > 0 {
                        Some(occurrences(all.subrange(0, i as int), t) as usize)
                    } else {
                        None::<usize>
                    },
            decreases lines.len() - i,
        {
            let line = &lines[i];
            let ghost pre = all.subrange(0, i as int);
            let ghost cur = all.subrange(0, i + 1);
            proof {
                assert(cur.drop_last() =~= pre);
                assert(cur.last() == views(line@));
                lemma_total_prefix(all, i as int + 1);
            }
            let mut j: usize = 0;
            while j < line.len()
                invariant
                    j <= line.len(),
                    line == lines@[i as int],
                    i < lines.len(),
                    all == line_views(lines@),
                    pre == all.subrange(0, i as int),
                    cur == all.subrange(0, i + 1),
                    cur.drop_last() == pre,
                    cur.last() == views(line@),
                    total_tokens(cur) <= usize::MAX,
                    v.wf(),
                    forall|t: Seq<char>|
                        #![trigger v.code(t)]
                        v.code(t) == if occurrences(pre, t) + count_in_line(
                            views(line@).subrange(0, j as int),
                            t,
                        ) > 0 {
                            Some((occurrences(pre, t) + count_in_line(
                                views(line@).subrange(0, j as int),
                                t,
                            )) as usize)
                        } else {
                            None::<usize>
                        },
                decreases line.len() - j,
            {
                let x = &line[j];
                let ghost l0 = views(line@).subrange(0, j as int);
                let ghost l1 = views(line@).subrange(0, j + 1);
                proof {
                    assert(l1.drop_last() =~= l0);
                    assert(l1.last() == x@);
                    assert(cur.last().subrange(0, j + 1) == l1);
                    lemma_count_in_line_le(l1, x@);
                    lemma_occurrences_le(pre, x@);
                    lemma_count_in_line_le(cur.last(), x@);
                    lemma_count_prefix_le(cur.last(), j as int + 1, x@);
                }
                let ghost old_v = v@;
                proof {
                    assert forall|t: Seq<char>| #[trigger] code_in(old_v, t) == if occurrences(pre, t)
                        + count_in_line(l0, t) > 0 {
                        Some((occurrences(pre, t) + count_in_line(l0, t)) as usize)
                    } else {
                        None::<usize>
                    } by {
                        assert(v.code(t) == code_in(old_v, t));
                    }
                }
                match v.index_of(x) {
                    Some(k) => {
                        proof {
                            lemma_code_at(old_v, k as int);
                        }
                        let c = v.entries[k].1;
                        let name = v.entries[k].0.clone();
                        v.entries.set(k, (name, c + 1));
                        proof {
                            assert(v@ =~= old_v.update(k as int, (old_v[k as int].0, (c + 1) as usize)));
                            lemma_code_at(v@, k as int);
                            assert forall|t: Seq<char>| t != x@ implies #[trigger] code_in(v@, t) == code_in(old_v, t) by {
                                lemma_code_update(old_v, k as int, (c + 1) as usize, t);
                            }
                            lemma_code_update(old_v, k as int, (c + 1) as usize, x@);
                        }
                    },
                    None => {
                        v.entries.push((x.clone(), 1));
                        proof {
                            assert(v@ =~= old_v.push((x@, 1usize)));
                            assert forall|a: int, b: int| 0 <= a < b < v@.len() implies v@[a].0 != v@[b].0 by {
                                if b == old_v.len() {
                                    assert(old_v[a].0 != x@);
                                }
                            }
                            lemma_code_at(v@, old_v.len() as int);
                            assert forall|t: Seq<char>| t != x@ implies #[trigger] code_in(v@, t) == code_in(old_v, t) by {
                                if exists|m: int| 0 <= m < old_v.len() && old_v[m].0 == t {
                                    let m = choose|m: int| 0 <= m < old_v.len() && old_v[m].0 == t;
                                    lemma_code_at(old_v, m);
                                    lemma_code_at(v@, m);
                                } else {
                                    assert forall|m: int| 0 <= m < v@.len() implies v@[m].0 != t by {
                                        if m < old_v.len() {
                                            assert(v@[m] == old_v[m]);
                                        }
                                    }
                                }
                            }
                        }
                    },
                }
                proof {
                    assert(count_in_line(l1, x@) == count_in_line(l0, x@) + 1);
                    assert forall|t: Seq<char>| #[trigger] v.code(t) == if occurrences(pre, t)
                        + count_in_line(l1, t) > 0 {
                        Some((occurrences(pre, t) + count_in_line(l1, t)) as usize)
                    } else {
                        None::<usize>
                    } by {
                        if t != x@ {
                            assert(count_in_line(l1, t) == count_in_line(l0, t));
                            assert(code_in(v@, t) == code_in(old_v, t));
                        }
                    }
                }
                j += 1;
            }
            proof {
                assert(views(line@).subrange(0, line@.len() as int) =~= views(line@));
            }
            i += 1;
        }
        proof {
            assert(all.subrange(0, lines@.len() as int) =~= all);
        }
        v
    }
}

/// The tokens of a prefix of a corpus are no more than those of the corpus.
pub proof fn lemma_total_prefix(lines: Seq<Seq<Seq<char>>>, n: int)
    requires
        0 <= n <= lines.len(),
    ensures
        total_tokens(lines.subrange(0, n)) <= total_tokens(lines),
    decreases lines.len(),
{
    if n < lines.len() {
        assert(lines.drop_last().subrange(0, n) =~= lines.subrange(0, n));
        lemma_total_prefix(lines.drop_last(), n);
    } else {
        assert(lines.subrange(0, n) =~= lines);
    }
}

/// Counting over a prefix of a line gives no more than over the line.
pub proof fn lemma_count_prefix_le(l: Seq<Seq<char>>, n: int, t: Seq<char>)
    requires
        0 <= n <= l.len(),
    ensures
        count_in_line(l.subrange(0, n), t) <= count_in_line(l, t),
    decreases l.len(),
{
    if n < l.len() {
        assert(l.drop_last().subrange(0, n) =~= l.subrange(0, n));
        lemma_count_prefix_le(l.drop_last(), n, t);
    } else {
        assert(l.subrange(0, n) =~= l);
    }
}

} // verus!
