//! A character-name generator built on a letter-transition table: a Markov
//! chain over the lowercase letters, each node holding weighted links to the
//! next letter, filled from a small text format of `from to weight` lines.

use vstd::prelude::*;

use crate::text::{chars_of, digit_char, find_char, is_digit, string_from_chars, subvec};
use crate::toml::{all_digits, digits_val};

verus! {

/// One weighted transition of the chain.
#[derive(Debug)]
struct MarkovLink {
    state: char,
    p: u8,
}

/// A letter-transition table: one node per lowercase letter, each holding
/// the weighted links that lead out of it.
#[derive(Debug)]
pub struct MarkovChain {
    nodes: Vec<Vec<MarkovLink>>,
}

/// Sum of the link weights of one node.
pub open spec fn sum_p(links: Seq<(char, u8)>) -> int
    decreases links.len(),
{
    if links.len() == 0 {
        0
    } else {
        links[0].1 + sum_p(links.drop_first())
    }
}

pub proof fn lemma_sum_p_nonneg(links: Seq<(char, u8)>)
    ensures
        sum_p(links) >= 0,
    decreases links.len(),
{
    if links.len() > 0 {
        lemma_sum_p_nonneg(links.drop_first());
    }
}

/// The first link whose cumulative weight reaches `x`, starting from the
/// cumulative weight `base`; `_` when no link is reached.
pub open spec fn next_state_spec(links: Seq<(char, u8)>, x: u8, base: int) -> char
    decreases links.len(),
{
    if links.len() == 0 {
        '_'
    } else if x <= base + links[0].1 {
        links[0].0
    } else {
        next_state_spec(links.drop_first(), x, base + links[0].1)
    }
}

impl MarkovChain {
    /// The links of node `i`, as plain pairs of next letter and weight.
    pub closed spec fn node(&self, i: int) -> Seq<(char, u8)> {
        self.nodes@[i]@.map_values(|l: MarkovLink| (l.state, l.p))
    }

    /// The chain always holds one node per lowercase letter.
    pub closed spec fn wf(&self) -> bool {
        self.nodes@.len() == 26
    }

    /// An empty chain: twenty-six nodes, no links.
    pub fn new() -> (r: Self)
        ensures
            r.wf(),
            forall|i: int| 0 <= i < 26 ==> r.node(i) == Seq::<(char, u8)>::empty(),
    {
        let mut nodes: Vec<Vec<MarkovLink>> = Vec::new();
        let mut i: usize = 0;
        while i < 26
            invariant
                i <= 26,
                nodes@.len() == i,
                forall|k: int| 0 <= k < i ==> #[trigger] nodes@[k]@.len() == 0,
            decreases 26 - i,
        {
            nodes.push(Vec::new());
            i += 1;
        }
        let r = MarkovChain { nodes };
        proof {
            assert forall|i: int| 0 <= i < 26 implies r.node(i) == Seq::<(char, u8)>::empty() by {
                assert(r.node(i) =~= Seq::<(char, u8)>::empty());
            }
        }
        r
    }

    /// Append a weighted link from `start_state` to `next_state`.
    pub fn push_link(&mut self, start_state: char, next_state: char, p: u8)
        requires
            old(self).wf(),
            'a' <= start_state <= 'z',
        ensures
            final(self).wf(),
            final(self).node(state_index(start_state)) == old(self).node(
                state_index(start_state),
            ).push((next_state, p)),
            forall|i: int|
                0 <= i < 26 && i != state_index(start_state) ==> final(self).node(i) == old(
                    self,
                ).node(i),
    {
        let idx = (start_state as u8 - 97) as usize;
        let link = MarkovLink { state: next_state, p };
        let ghost before = self.nodes@;
        self.nodes[idx].push(link);
        proof {
            assert(self.node(idx as int) =~= old(self).node(idx as int).push((next_state, p)));
            assert forall|i: int|
                0 <= i < 26 && i != idx as int implies self.node(i) == old(self).node(i) by {
                assert(self.nodes@[i] == before[i]);
            }
        }
    }

    /// The next letter for the draw `x`: walk the links of `state`'s node,
    /// accumulating weights, and return the first link whose cumulative
    /// weight reaches `x`; `_` when the draw lands past every link.
    pub fn next_state(&self, state: char, x: u8) -> (r: char)
        requires
            self.wf(),
            'a' <= state <= 'z',
            sum_p(self.node(state_index(state))) <= 255,
        ensures
            r == next_state_spec(self.node(state_index(state)), x, 0),
    {
        let idx = (state as u8 - 97) as usize;
        let ghost whole = self.node(idx as int);
        let links = &self.nodes[idx];
        let n = links.len();
        proof {
            assert(whole.len() == n);
        }
        let mut p: u8 = 0;
        let mut i: usize = 0;
        proof {
            assert(whole.skip(0) =~= whole);
        }
        while i < n
            invariant
                i <= n == whole.len(),
                whole == self.node(state_index(state)),
                self.wf(),
                'a' <= state <= 'z',
                idx == state_index(state),
                links == &self.nodes[idx as int],
                p as int + sum_p(whole.skip(i as int)) == sum_p(whole),
                sum_p(whole) <= 255,
                next_state_spec(whole, x, 0) == next_state_spec(whole.skip(i as int), x, p as int),
            decreases n - i,
        {
            proof {
                assert(whole.skip(i as int)[0] == whole[i as int]);
                assert(whole[i as int] == (links@[i as int].state, links@[i as int].p));
                assert(whole.skip(i as int).drop_first() =~= whole.skip(i + 1 as int));
                lemma_sum_p_nonneg(whole.skip(i + 1 as int));
            }
            let link_p = links[i].p;
            p = p + link_p;
            if x <= p {
                return links[i].state;
            }
            i += 1;
        }
        proof {
            assert(whole.skip(n as int) =~= Seq::<(char, u8)>::empty());
        }
        '_'
    }

    /// Total link weight of the node of `state`.
    pub fn probability_total(&self, state: char) -> (r: u128)
        requires
            self.wf(),
            'a' <= state <= 'z',
        ensures
            r as int == sum_p(self.node(state_index(state))),
    {
        let idx = (state as u8 - 97) as usize;
        let ghost whole = self.node(idx as int);
        let links = &self.nodes[idx];
        let n = links.len();
        proof {
            assert(whole.len() == n);
            lemma_sum_p_nonneg(whole);
        }
        let mut total: u128 = 0;
        let mut i: usize = 0;
        proof {
            assert(whole.skip(0) =~= whole);
        }
        while i < n
            invariant
                i <= n == whole.len(),
                whole == self.node(state_index(state)),
                self.wf(),
                'a' <= state <= 'z',
                idx == state_index(state),
                links == &self.nodes[idx as int],
                total as int + sum_p(whole.skip(i as int)) == sum_p(whole),
                total <= 255 * i,
            decreases n - i,
        {
            proof {
                assert(whole.skip(i as int)[0] == whole[i as int]);
                assert(whole[i as int] == (links@[i as int].state, links@[i as int].p));
                assert(whole.skip(i as int).drop_first() =~= whole.skip(i + 1 as int));
                lemma_sum_p_nonneg(whole.skip(i + 1 as int));
            }
            total = total + links[i].p as u128;
            i += 1;
        }
        proof {
            assert(whole.skip(n as int) =~= Seq::<(char, u8)>::empty());
        }
        total
    }
}

/// Node index of a lowercase letter.
pub open spec fn state_index(c: char) -> int {
    c as int - 'a' as int
}

// ---------------------------------------------------------------------------
// The transition-table text format
// ---------------------------------------------------------------------------
/// One line of the table text, `from to weight`: the first characters of the
/// first two space-separated tokens, and the decimal value of the third
/// token (digits only, at most 255). The `from` letter must be lowercase;
/// anything else on the line is ignored; any malformed line is rejected.
pub open spec fn markov_line_spec(line: Seq<char>) -> Option<(char, char, u8)> {
    match find_char(line, ' ', 0, line.len() as int) {
        None => None,
        Some(s1) => if s1 == 0 {
            None
        } else {
            match find_char(line, ' ', s1 + 1, line.len() as int) {
                None => None,
                Some(s2) => if s2 == s1 + 1 {
                    None
                } else {
                    let end3 = match find_char(line, ' ', s2 + 1, line.len() as int) {
                        None => line.len() as int,
                        Some(s3) => s3,
                    };
                    let tok3 = line.subrange(s2 + 1, end3);
                    if 'a' <= line[0] <= 'z' && tok3.len() > 0 && all_digits(tok3) && digits_val(
                        tok3,
                    ) <= 255 {
                        Some((line[0], line[s1 + 1], digits_val(tok3) as u8))
                    } else {
                        None
                    }
                },
            }
        },
    }
}

/// The entries of the whole table text, line by line from position `i`.
pub open spec fn markov_entries(s: Seq<char>, i: int) -> Option<Seq<(char, char, u8)>>
    decreases s.len() - i,
    via markov_entries_decreases
{
    if !(0 <= i <= s.len()) {
        None
    } else if i == s.len() {
        Some(Seq::empty())
    } else {
        let e = crate::iterator::line_end(s, i);
        match markov_line_spec(s.subrange(i, e)) {
            None => None,
            Some(entry) => {
                let next = if e < s.len() {
                    e + 1
                } else {
                    e
                };
                match markov_entries(s, next) {
                    None => None,
                    Some(rest) => Some(seq![entry] + rest),
                }
            },
        }
    }
}

#[via_fn]
proof fn markov_entries_decreases(s: Seq<char>, i: int) {
    if 0 <= i < s.len() {
        crate::iterator::lemma_line_end_bounds(s, i);
    }
}

/// Twenty-six empty nodes.
pub open spec fn empty_nodes() -> Seq<Seq<(char, u8)>> {
    Seq::new(26, |i: int| Seq::empty())
}

/// The nodes that result from pushing the entries onto an empty chain, in
/// order.
pub open spec fn apply_entries(entries: Seq<(char, char, u8)>) -> Seq<Seq<(char, u8)>>
    decreases entries.len(),
{
    if entries.len() == 0 {
        empty_nodes()
    } else {
        let prev = apply_entries(entries.drop_last());
        let e = entries.last();
        prev.update(state_index(e.0), prev[state_index(e.0)].push((e.1, e.2)))
    }
}

impl MarkovChain {
    /// All nodes of the chain, in letter order.
    pub open spec fn nodes_view(&self) -> Seq<Seq<(char, u8)>> {
        Seq::new(26, |i: int| self.node(i))
    }
}

/// Parse one `from to weight` line.
#[verifier::loop_isolation(false)]
fn parse_markov_line_exec(line: &Vec<char>) -> (r: Option<(char, char, u8)>)
    ensures
        r == markov_line_spec(line@),
{
    let n = line.len();
    let mut i: usize = 0;
    while i < n && line[i] != ' '
        invariant
            i <= n,
            find_char(line@, ' ', 0, n as int) == find_char(line@, ' ', i as int, n as int),
        decreases n - i,
    {
        i += 1;
    }
    if i >= n {
        return None;
    }
    let s1 = i;
    if s1 == 0 {
        return None;
    }
    let mut j: usize = s1 + 1;
    while j < n && line[j] != ' '
        invariant
            s1 + 1 <= j <= n,
            find_char(line@, ' ', s1 + 1, n as int) == find_char(line@, ' ', j as int, n as int),
        decreases n - j,
    {
        j += 1;
    }
    if j >= n {
        return None;
    }
    let s2 = j;
    if s2 == s1 + 1 {
        return None;
    }
    let mut m: usize = s2 + 1;
    while m < n && line[m] != ' '
        invariant
            s2 + 1 <= m <= n,
            find_char(line@, ' ', s2 + 1, n as int) == find_char(line@, ' ', m as int, n as int),
        decreases n - m,
    {
        m += 1;
    }
    let end3 = m;
    proof {
        if m < n {
            assert(find_char(line@, ' ', s2 + 1, n as int) == Some(m as int));
        } else {
            assert(find_char(line@, ' ', s2 + 1, n as int) is None);
        }
    }
    let c1 = line[0];
    if !(('a' <= c1) && (c1 <= 'z')) {
        return None;
    }
    let c2 = line[s1 + 1];
    if end3 == s2 + 1 {
        return None;
    }
    let ghost tok3 = line@.subrange(s2 + 1 as int, end3 as int);
    // decimal value of the weight token, saturating above 255
    let mut acc: u32 = 0;
    let mut k: usize = s2 + 1;
    proof {
        assert(tok3.subrange(0, 0) =~= Seq::<char>::empty());
    }
    while k < end3
        invariant
            s2 + 1 <= k <= end3 <= n,
            tok3 == line@.subrange(s2 + 1 as int, end3 as int),
            all_digits(tok3.subrange(0, k - s2 - 1)),
            (acc <= 255 && acc as int == digits_val(tok3.subrange(0, k - s2 - 1))) || (acc == 256
                && digits_val(tok3.subrange(0, k - s2 - 1)) > 255),
        decreases end3 - k,
    {
        let c = line[k];
        if !digit_char(c) {
            proof {
                assert(tok3[k - s2 - 1] == line@[k as int]);
            }
            return None;
        }
        let d: u32 = (c as u32) - 48;
        proof {
            let pre = tok3.subrange(0, k - s2 - 1);
            let cur = tok3.subrange(0, k - s2);
            assert(cur.drop_last() =~= pre);
            assert(cur.last() == line@[k as int]);
            crate::toml::lemma_digits_val_nonneg(pre);
        }
        if acc >= 256 {
            acc = 256;
        } else {
            let t = acc * 10 + d;
            if t > 255 {
                acc = 256;
            } else {
                acc = t;
            }
        }
        k += 1;
    }
    proof {
        assert(tok3.subrange(0, end3 - s2 - 1) =~= tok3);
    }
    if acc > 255 {
        return None;
    }
    Some((c1, c2, acc as u8))
}

/// Build a chain from the table text: one `from to weight` line at a time,
/// rejecting the whole text at the first malformed line.
#[verifier::loop_isolation(false)]
pub fn parse_markov_file(content: &str) -> (r: Option<MarkovChain>)
    ensures
        match markov_entries(content@, 0) {
            Some(entries) => r matches Some(chain) && chain.wf() && chain.nodes_view()
                == apply_entries(entries),
            None => r is None,
        },
{
    let v = chars_of(content);
    let n = v.len();
    let mut chain = MarkovChain::new();
    let ghost mut done: Seq<(char, char, u8)> = Seq::empty();
    proof {
        assert(chain.nodes_view() =~= empty_nodes());
        assert(apply_entries(done) == empty_nodes());
    }
    let mut i: usize = 0;
    while i < n
        invariant
            i <= n == content@.len(),
            v@ == content@,
            chain.wf(),
            chain.nodes_view() == apply_entries(done),
            match markov_entries(content@, i as int) {
                Some(rest) => markov_entries(content@, 0) == Some(done + rest),
                None => markov_entries(content@, 0) is None,
            },
        decreases n - i,
    {
        let mut e = i;
        while e < n && v[e] != '\n'
            invariant
                i <= e <= n,
                crate::iterator::line_end(v@, i as int) == crate::iterator::line_end(
                    v@,
                    e as int,
                ),
            decreases n - e,
        {
            e += 1;
        }
        proof {
            assert(crate::iterator::line_end(content@, i as int) == e as int);
        }
        let line = subvec(&v, i, e);
        match parse_markov_line_exec(&line) {
            None => {
                return None;
            },
            Some((c1, c2, p)) => {
                chain.push_link(c1, c2, p);
                proof {
                    let entry = (c1, c2, p);
                    let prev_done = done;
                    done = done.push(entry);
                    assert(done.drop_last() =~= prev_done);
                    assert(chain.nodes_view() =~= apply_entries(done));
                    match markov_entries(content@, if e < n {
                        e + 1 as int
                    } else {
                        e as int
                    }) {
                        Some(rest2) => {
                            assert(prev_done + (seq![entry] + rest2) =~= done + rest2);
                        },
                        None => {},
                    }
                }
                i = if e < n {
                    e + 1
                } else {
                    e
                };
            },
        }
    }
    proof {
        assert(markov_entries(content@, n as int) == Some(Seq::<(char, char, u8)>::empty()));
        assert(done + Seq::<(char, char, u8)>::empty() =~= done);
    }
    Some(chain)
}

// ---------------------------------------------------------------------------
// Name generation
// ---------------------------------------------------------------------------
/// Relies on `rand::random`: a value drawn from the thread-local generator.
/// Nothing can be promised of a random value.
pub assume_specification<T>[ rand::random::<T> ]() -> (r: T)
    where
        rand::distributions::Standard: rand::distributions::Distribution<T>,
;

/// Every link of the chain leads to a lowercase letter or to the end marker
/// `_`.
pub open spec fn links_lowercase(chain: &MarkovChain) -> bool {
    forall|i: int, j: int|
        0 <= i < 26 && 0 <= j < chain.node(i).len() ==> ('a' <= (#[trigger] chain.node(i)[j]).0
            <= 'z' || chain.node(i)[j].0 == '_')
}

/// Every node's total link weight fits the one-byte draw.
pub open spec fn weights_bounded(chain: &MarkovChain) -> bool {
    forall|i: int| 0 <= i < 26 ==> sum_p(#[trigger] chain.node(i)) <= 255
}

impl MarkovChain {
    /// Whether the chain can drive name generation: every link leads to a
    /// lowercase letter or the end marker, and every node's total weight
    /// fits the one-byte draw.
    #[verifier::loop_isolation(false)]
    pub fn supports_generation(&self) -> (r: bool)
        requires
            self.wf(),
        ensures
            r == (links_lowercase(self) && weights_bounded(self)),
    {
        let mut i: usize = 0;
        while i < 26
            invariant
                i <= 26,
                forall|a: int, b: int|
                    0 <= a < i && 0 <= b < self.node(a).len() ==> ('a' <= (
                    #[trigger] self.node(a)[b]).0 <= 'z' || self.node(a)[b].0 == '_'),
                forall|a: int| 0 <= a < i ==> sum_p(#[trigger] self.node(a)) <= 255,
            decreases 26 - i,
        {
            let ghost whole = self.node(i as int);
            let links = &self.nodes[i];
            let n = links.len();
            proof {
                assert(whole.len() == n);
                assert(whole.skip(0) =~= whole);
            }
            let mut total: u32 = 0;
            let mut j: usize = 0;
            while j < n
                invariant
                    j <= n == whole.len(),
                    i < 26,
                    whole == self.node(i as int),
                    links == &self.nodes[i as int],
                    forall|b: int|
                        0 <= b < j ==> ('a' <= (#[trigger] whole[b]).0 <= 'z' || whole[b].0
                            == '_'),
                    total as int + sum_p(whole.skip(j as int)) == sum_p(whole),
                    total <= 255,
                decreases n - j,
            {
                proof {
                    assert(whole.skip(j as int)[0] == whole[j as int]);
                    assert(whole[j as int] == (links@[j as int].state, links@[j as int].p));
                    assert(whole.skip(j as int).drop_first() =~= whole.skip(j + 1 as int));
                    lemma_sum_p_nonneg(whole.skip(j + 1 as int));
                }
                let c = links[j].state;
                if !(('a' <= c && c <= 'z') || c == '_') {
                    return false;
                }
                total = total + links[j].p as u32;
                if total > 255 {
                    return false;
                }
                j += 1;
            }
            proof {
                assert(whole.skip(n as int) =~= Seq::<(char, u8)>::empty());
            }
            i += 1;
        }
        true
    }
}

/// The next state is the end marker or one of the node's link targets.
proof fn lemma_next_state_membership(links: Seq<(char, u8)>, x: u8, base: int)
    ensures
        next_state_spec(links, x, base) == '_' || exists|j: int|
            0 <= j < links.len() && (#[trigger] links[j]).0 == next_state_spec(links, x, base),
    decreases links.len(),
{
    if links.len() > 0 && !(x <= base + links[0].1) {
        lemma_next_state_membership(links.drop_first(), x, base + links[0].1);
        let c = next_state_spec(links, x, base);
        if c != '_' {
            let j = choose|j: int|
                0 <= j < links.drop_first().len() && (#[trigger] links.drop_first()[j]).0 == c;
            assert(links[j + 1].0 == c);
        }
    }
}

/// Generate a character name: a random starting letter, uppercased, then
/// letters drawn from the chain until it signals an end once the name is
/// long enough, the name reaches its maximum length, or the draw budget runs
/// out.
#[verifier::loop_isolation(false)]
pub fn generate_character_name(chain: &MarkovChain) -> (r: String)
    requires
        chain.wf(),
        links_lowercase(chain),
        weights_bounded(chain),
    ensures
        1 <= r@.len() <= 13,
        'A' <= r@[0] <= 'Z',
        forall|k: int| 1 <= k < r@.len() ==> 'a' <= #[trigger] r@[k] <= 'z',
{
    let x: u8 = rand::random();
    let start_code: u8 = 97 + x % 26;
    let mut state: char = start_code as char;
    let mut name: Vec<char> = Vec::new();
    name.push((start_code - 32) as char);
    let mut should_end = false;
    let mut budget: u32 = 64;
    while (!should_end || name.len() <= 3) && name.len() <= 12 && budget > 0
        invariant
            1 <= name@.len() <= 13,
            'A' <= name@[0] <= 'Z',
            forall|k: int| 1 <= k < name@.len() ==> 'a' <= #[trigger] name@[k] <= 'z',
            'a' <= state <= 'z',
        decreases budget,
    {
        let d: u8 = rand::random();
        proof {
            assert(sum_p(chain.node(state_index(state))) <= 255);
        }
        let s2 = chain.next_state(state, d);
        should_end = s2 == '_';
        if !should_end {
            proof {
                lemma_next_state_membership(chain.node(state_index(state)), d, 0);
            }
            state = s2;
            name.push(s2);
        }
        budget = budget - 1;
    }
    string_from_chars(&name)
}

} // verus!
