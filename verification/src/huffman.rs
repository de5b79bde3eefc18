//! Huffman coding: frequency analysis, tree construction, and encoding and
//! decoding against the generated codebook.

use vstd::prelude::*;
use crate::strutil::push_char;
use crate::strutil::append_str;
use crate::strutil::chars_of;

verus! {

/// A node of the code tree: a leaf carries a source character; an internal
/// node has two subtrees. Every node stores the combined frequency of the
/// leaves below it.
struct HNode {
    freq: u64,
    ch: Option<char>,
    left: Option<Box<HNode>>,
    right: Option<Box<HNode>>,
}

impl HNode {
    /// A node with no children encodes a single character.
    spec fn spec_is_leaf(self) -> bool {
        self.left is None && self.right is None
    }

    /// Does this subtree have a leaf for `c`?
    spec fn has(self, c: char) -> bool
        decreases self,
    {
        if self.spec_is_leaf() {
            self.ch == Some(c)
        } else {
            link_has(self.left, c) || link_has(self.right, c)
        }
    }

    /// The codebook below this node: each leaf's character paired with the
    /// bit path reaching it, `0` for left, `1` for right.
    spec fn codebook_below(self, prefix: Seq<char>) -> Seq<(char, Seq<char>)>
        decreases self,
    {
        if self.spec_is_leaf() {
            match self.ch {
                Some(c) => seq![(c, prefix)],
                None => Seq::empty(),
            }
        } else {
            link_codebook(self.left, prefix.push('0')) + link_codebook(self.right, prefix.push('1'))
        }
    }
}

/// Membership under an optional subtree.
spec fn link_has(link: Option<Box<HNode>>, c: char) -> bool
    decreases link,
{
    match link {
        None => false,
        Some(node) => node.has(c),
    }
}

/// Codebook under an optional subtree.
spec fn link_codebook(link: Option<Box<HNode>>, prefix: Seq<char>) -> Seq<(char, Seq<char>)>
    decreases link,
{
    match link {
        None => Seq::empty(),
        Some(node) => node.codebook_below(prefix),
    }
}

/// Number of occurrences of `c` in `s`.
pub open spec fn char_count(s: Seq<char>, c: char) -> nat
    decreases s.len(),
{
    if s.len() == 0 {
        0
    } else {
        char_count(s.drop_first(), c) + if s[0] == c {
            1nat
        } else {
            0nat
        }
    }
}

/// First code bound to `c` in the codebook.
pub open spec fn code_find(codes: Seq<(char, Seq<char>)>, c: char) -> Option<Seq<char>>
    decreases codes.len(),
{
    if codes.len() == 0 {
        None
    } else if codes[0].0 == c {
        Some(codes[0].1)
    } else {
        code_find(codes.drop_first(), c)
    }
}

/// The encoding of `text` under `codes`: the concatenation of each
/// character's code, or nothing if some character has none.
pub open spec fn encode_text(codes: Seq<(char, Seq<char>)>, text: Seq<char>) -> Option<Seq<char>>
    decreases text.len(),
{
    if text.len() == 0 {
        Some(Seq::empty())
    } else {
        match code_find(codes, text[0]) {
            None => None,
            Some(code) => match encode_text(codes, text.drop_first()) {
                None => None,
                Some(rest) => Some(code + rest),
            },
        }
    }
}

/// Huffman encoder/decoder: the code tree and the codebook generated from
/// it.
pub struct HuffmanCodec {
    root: Option<HNode>,
    codes: Vec<(char, String)>,
}

impl HuffmanCodec {
    /// The codebook: characters paired with their bit strings.
    pub closed spec fn code_table(self) -> Seq<(char, Seq<char>)> {
        Seq::new(self.codes@.len(), |i: int| (self.codes@[i].0, self.codes@[i].1@))
    }

    /// Character frequencies of `text`, one entry per distinct character in
    /// order of first appearance.
    pub fn calculate_frequencies(text: &str) -> (r: Vec<(char, u64)>)
        ensures
            forall|i: int|
                0 <= i < r@.len() ==> (#[trigger] r@[i]).1 == char_count(text@, r@[i].0)
                    && r@[i].1 > 0,
            forall|i: int, j: int| 0 <= i < j < r@.len() ==> r@[i].0 != r@[j].0,
            forall|c: char| char_count(text@, c) > 0 ==> exists|i: int|
                0 <= i < r@.len() && (#[trigger] r@[i]).0 == c,
    {
        let cs = chars_of(text);
        let n = cs.len();
        let mut r: Vec<(char, u64)> = Vec::new();
        let mut i: usize = 0;
        while i < n
            invariant
                n == cs.len(),
                i <= n,
                forall|t: int|
                    0 <= t < r@.len() ==> (#[trigger] r@[t]).1 == char_count(
                        cs@.take(i as int),
                        r@[t].0,
                    ) && r@[t].1 > 0,
                forall|t: int, u: int| 0 <= t < u < r@.len() ==> r@[t].0 != r@[u].0,
                forall|c: char| char_count(cs@.take(i as int), c) > 0 ==> exists|t: int|
                    0 <= t < r@.len() && (#[trigger] r@[t]).0 == c,
                forall|t: int| 0 <= t < r@.len() ==> char_count(cs@.take(i as int), r@[t].0)
                    <= i,
            decreases n - i,
        {
            let c = cs[i];
            proof {
                lemma_char_count_snoc(cs@, i as int);
            }
            let mut found = false;
            let mut t: usize = 0;
            while t < r.len()
                invariant
                    t <= r.len(),
                    !found ==> forall|u: int| 0 <= u < t ==> (#[trigger] r@[u]).0 != c,
                    found ==> t < r.len() && r@[t as int].0 == c,
                ensures
                    found ==> t < r.len() && r@[t as int].0 == c,
                    !found ==> forall|u: int| 0 <= u < r@.len() ==> (#[trigger] r@[u]).0 != c,
                decreases r.len() - t + if found {
                    0int
                } else {
                    1int
                },
            {
                if !found {
                    if r[t].0 == c {
                        found = true;
                    } else {
                        t += 1;
                    }
                } else {
                    break ;
                }
            }
            proof {
                if !found {
                    assert(char_count(cs@.take(i as int), c) == 0) by {
                        if char_count(cs@.take(i as int), c) > 0 {
                            let w = choose|t: int|
                                0 <= t < r@.len() && (#[trigger] r@[t]).0 == c;
                            assert(r@[w].0 != c);
                        }
                    }
                }
            }
            let ghost pre_r = r@;
            if found {
                let old_count = r[t].1;
                r.set(t, (c, old_count + 1));
            } else {
                r.push((c, 1));
            }
            proof {
                assert forall|tt: int|
                    0 <= tt < r@.len() implies (#[trigger] r@[tt]).1 == char_count(
                    cs@.take(i + 1),
                    r@[tt].0,
                ) && r@[tt].1 > 0 by {
                    if found {
                        if tt != t {
                            assert(r@[tt] == pre_r[tt]);
                            assert(r@[tt].0 != c);
                        }
                    } else {
                        if tt < pre_r.len() {
                            assert(r@[tt] == pre_r[tt]);
                            assert(r@[tt].0 != c);
                        } else {
                            assert(r@[tt] == (c, 1u64));
                        }
                    }
                }
                assert forall|c2: char|
                    #[trigger] char_count(cs@.take(i + 1), c2) > 0 implies exists|tt: int|
                    0 <= tt < r@.len() && (#[trigger] r@[tt]).0 == c2 by {
                    if c2 == c {
                        if found {
                            assert(r@[t as int].0 == c2);
                        } else {
                            assert(r@[r@.len() - 1].0 == c2);
                        }
                    } else {
                        assert(char_count(cs@.take(i as int), c2) > 0);
                        let w = choose|w: int|
                            0 <= w < pre_r.len() && (#[trigger] pre_r[w]).0 == c2;
                        assert(r@[w].0 == c2);
                    }
                }
            }
            i += 1;
        }
        proof {
            assert(cs@.take(n as int) =~= cs@);
        }
        r
    }
}

/// Counting one more character: how the count over a prefix grows.
proof fn lemma_char_count_snoc(s: Seq<char>, i: int)
    requires
        0 <= i < s.len(),
    ensures
        forall|c: char|
            char_count(s.take(i + 1), c) == char_count(s.take(i), c) + (if s[i] == c {
                1nat
            } else {
                0nat
            }),
    decreases i,
{
    assert forall|c: char|
        char_count(s.take(i + 1), c) == char_count(s.take(i), c) + (if s[i] == c {
            1nat
        } else {
            0nat
        }) by {
        lemma_char_count_snoc_one(s, i, c);
    }
}

proof fn lemma_char_count_snoc_one(s: Seq<char>, i: int, c: char)
    requires
        0 <= i < s.len(),
    ensures
        char_count(s.take(i + 1), c) == char_count(s.take(i), c) + (if s[i] == c {
            1nat
        } else {
            0nat
        }),
    decreases i,
{
    if i == 0 {
        assert(s.take(1).drop_first() =~= s.take(0));
        assert(s.take(1)[0] == s[0]);
    } else {
        lemma_char_count_snoc_one(s.drop_first(), i - 1, c);
        assert(s.take(i + 1).drop_first() =~= s.drop_first().take(i));
        assert(s.take(i).drop_first() =~= s.drop_first().take(i - 1));
        assert(s.take(i + 1)[0] == s[0] && s.take(i)[0] == s[0]);
        assert(s.drop_first()[i - 1] == s[i]);
    }
}



/// Does any tree on the worklist contain `c`?
spec fn worklist_has(w: Seq<HNode>, c: char) -> bool {
    exists|i: int| 0 <= i < w.len() && (#[trigger] w[i]).has(c)
}

/// Looking a character up in a concatenated codebook searches the left part
/// first.
proof fn lemma_code_find_concat(a: Seq<(char, Seq<char>)>, b: Seq<(char, Seq<char>)>, c: char)
    ensures
        code_find(a + b, c) == (if code_find(a, c) is Some {
            code_find(a, c)
        } else {
            code_find(b, c)
        }),
    decreases a.len(),
{
    if a.len() == 0 {
        assert(a + b =~= b);
    } else {
        lemma_code_find_concat(a.drop_first(), b, c);
        assert((a + b).drop_first() =~= a.drop_first() + b);
        assert((a + b)[0] == a[0]);
    }
}

/// A character has a code in a subtree's codebook exactly when the subtree
/// holds its leaf.
proof fn lemma_codebook_has(link: Option<Box<HNode>>, prefix: Seq<char>, c: char)
    ensures
        code_find(link_codebook(link, prefix), c) is Some <==> link_has(link, c),
    decreases link,
{
    match link {
        None => {},
        Some(node) => {
            if node.spec_is_leaf() {
                match node.ch {
                    Some(ch) => {
                        assert(link_codebook(link, prefix) =~= seq![(ch, prefix)]);
                        assert(seq![(ch, prefix)].drop_first() =~= Seq::<(
                            char,
                            Seq<char>,
                        )>::empty());
                        assert(code_find(Seq::<(char, Seq<char>)>::empty(), c) is None);
                    },
                    None => {},
                }
            } else {
                lemma_codebook_has(node.left, prefix.push('0'), c);
                lemma_codebook_has(node.right, prefix.push('1'), c);
                lemma_code_find_concat(
                    link_codebook(node.left, prefix.push('0')),
                    link_codebook(node.right, prefix.push('1')),
                    c,
                );
            }
        },
    }
}

/// The index of a worklist tree with the least stored frequency.
fn min_freq_index(w: &Vec<HNode>) -> (m: usize)
    requires
        w.len() > 0,
    ensures
        m < w.len(),
        forall|j: int| 0 <= j < w.len() ==> w@[m as int].freq <= (#[trigger] w@[j]).freq,
{
    let mut m: usize = 0;
    let mut j: usize = 1;
    while j < w.len()
        invariant
            m < j <= w.len(),
            forall|t: int| 0 <= t < j ==> w@[m as int].freq <= (#[trigger] w@[t]).freq,
        decreases w.len() - j,
    {
        if w[j].freq < w[m].freq {
            m = j;
        }
        j += 1;
    }
    m
}

impl HuffmanCodec {
    fn build_tree(freqs: &Vec<(char, u64)>) -> (r: Result<HNode, String>)
        ensures
            r is Ok <==> freqs@.len() > 0,
            r matches Ok(t) ==> forall|c: char|
                t.has(c) <==> exists|i: int|
                    0 <= i < freqs@.len() && (#[trigger] freqs@[i]).0 == c,
            freqs@.len() == 1 ==> (r matches Ok(t) && t.spec_is_leaf() && t.ch == Some(
                freqs@[0].0,
            )),
            freqs@.len() >= 2 ==> (r matches Ok(t) && !t.spec_is_leaf()),
    {
        if freqs.len() == 0 {
            return Err("No characters to encode".to_string());
        }

        let mut worklist: Vec<HNode> = Vec::new();
        let mut i: usize = 0;
        while i < freqs.len()
            invariant
                i <= freqs.len(),
                worklist@.len() == i,
                forall|t: int|
                    0 <= t < i ==> (#[trigger] worklist@[t]).spec_is_leaf() && worklist@[t].ch
                        == Some(freqs@[t].0),
            decreases freqs.len() - i,
        {
            let entry = freqs[i];
            worklist.push(HNode { freq: entry.1, ch: Some(entry.0), left: None, right: None });
            i += 1;
        }
        proof {
            assert forall|c: char|
                worklist_has(worklist@, c) <==> exists|t: int|
                    0 <= t < freqs@.len() && (#[trigger] freqs@[t]).0 == c by {
                if worklist_has(worklist@, c) {
                    let t = choose|t: int|
                        0 <= t < worklist@.len() && (#[trigger] worklist@[t]).has(c);
                    assert(freqs@[t].0 == c);
                }
                if exists|t: int| 0 <= t < freqs@.len() && (#[trigger] freqs@[t]).0 == c {
                    let t = choose|t: int|
                        0 <= t < freqs@.len() && (#[trigger] freqs@[t]).0 == c;
                    assert(worklist@[t].has(c));
                }
            }
        }

        while worklist.len() > 1
            invariant
                worklist@.len() >= 1,
                forall|c: char|
                    worklist_has(worklist@, c) <==> exists|t: int|
                        0 <= t < freqs@.len() && (#[trigger] freqs@[t]).0 == c,
                freqs@.len() == 1 ==> worklist@.len() == 1 && worklist@[0].spec_is_leaf()
                    && worklist@[0].ch == Some(freqs@[0].0),
                freqs@.len() >= 2 ==> (worklist@.len() >= 2 || !worklist@[0].spec_is_leaf()),
            decreases worklist@.len(),
        {
            let ghost pre = worklist@;
            let ia = min_freq_index(&worklist);
            let a = worklist.remove(ia);
            let ib = min_freq_index(&worklist);
            let b = worklist.remove(ib);
            let ghost mid = worklist@;
            let f = match a.freq.checked_add(b.freq) {
                Some(f) => f,
                None => u64::MAX,
            };
            let ghost ga = a;
            let ghost gb = b;
            let node = HNode { freq: f, ch: None, left: Some(Box::new(a)), right: Some(Box::new(b)) };
            proof {
                assert(!node.spec_is_leaf());
                assert forall|c: char| #[trigger] node.has(c) == (ga.has(c) || gb.has(c)) by {
                    assert(link_has(node.left, c) == ga.has(c));
                    assert(link_has(node.right, c) == gb.has(c));
                }
            }
            worklist.push(node);
            proof {
                assert forall|c: char| worklist_has(worklist@, c) <==> worklist_has(pre, c) by {
                    if worklist_has(worklist@, c) {
                        let t = choose|t: int|
                            0 <= t < worklist@.len() && (#[trigger] worklist@[t]).has(c);
                        if t == worklist@.len() - 1 {
                            if ga.has(c) {
                                assert(pre[ia as int].has(c));
                            } else {
                                if ib < ia {
                                    assert(pre[ib as int].has(c));
                                } else {
                                    assert(pre[ib + 1].has(c));
                                }
                            }
                        } else {
                            let u = if t < ib as int {
                                t
                            } else {
                                t + 1
                            };
                            let v = if u < ia as int {
                                u
                            } else {
                                u + 1
                            };
                            assert(worklist@[t] == mid[t]);
                            assert(mid[t] == pre.remove(ia as int)[u]);
                            assert(pre.remove(ia as int)[u] == pre[v]);
                            assert(pre[v].has(c));
                        }
                    }
                    if worklist_has(pre, c) {
                        let t = choose|t: int| 0 <= t < pre.len() && (#[trigger] pre[t]).has(c);
                        if t == ia as int {
                            assert(worklist@[worklist@.len() - 1].has(c));
                        } else {
                            let u = if t < ia as int {
                                t
                            } else {
                                t - 1
                            };
                            assert(pre.remove(ia as int)[u] == pre[t]);
                            if u == ib as int {
                                assert(worklist@[worklist@.len() - 1].has(c));
                            } else {
                                let v = if u < ib as int {
                                    u
                                } else {
                                    u - 1
                                };
                                assert(mid[v] == pre.remove(ia as int)[u]);
                                assert(worklist@[v] == mid[v]);
                                assert(worklist@[v].has(c));
                            }
                        }
                    }
                }
                assert forall|c: char|
                    worklist_has(worklist@, c) <==> (exists|t: int|
                        0 <= t < freqs@.len() && (#[trigger] freqs@[t]).0 == c) by {
                    assert(worklist_has(worklist@, c) == worklist_has(pre, c));
                }
            }
        }

        let ghost pre_pop = worklist@;
        let t = match worklist.pop() {
            Some(t) => t,
            None => {
                return Err("Failed to build tree".to_string());
            },
        };
        proof {
            assert(pre_pop.len() == 1 && t == pre_pop[0]);
            assert forall|c: char|
                t.has(c) <==> exists|i2: int|
                    0 <= i2 < freqs@.len() && (#[trigger] freqs@[i2]).0 == c by {
                if t.has(c) {
                    assert(pre_pop[0].has(c));
                    assert(worklist_has(pre_pop, c));
                }
                if exists|i2: int| 0 <= i2 < freqs@.len() && (#[trigger] freqs@[i2]).0 == c {
                    assert(worklist_has(pre_pop, c));
                    let w = choose|w: int|
                        0 <= w < pre_pop.len() && (#[trigger] pre_pop[w]).has(c);
                    assert(w == 0);
                }
            }
        }
        Ok(t)
    }
}


/// One decoding step per bit: descend left on `0`, right on `1`. Stepping
/// into a leaf that carries a character emits it and restarts at the root;
/// a missing child, or any bit other than `0`/`1`, fails.
spec fn decode_walk(root: HNode, cur: HNode, bits: Seq<char>) -> Option<Seq<char>>
    decreases bits.len(),
{
    if bits.len() == 0 {
        Some(Seq::empty())
    } else if bits[0] != '0' && bits[0] != '1' {
        None
    } else {
        let child = if bits[0] == '0' {
            cur.left
        } else {
            cur.right
        };
        match child {
            None => None,
            Some(next) => if next.spec_is_leaf() && next.ch is Some {
                match decode_walk(root, root, bits.drop_first()) {
                    None => None,
                    Some(rest) => Some(seq![next.ch.unwrap()] + rest),
                }
            } else {
                decode_walk(root, *next, bits.drop_first())
            },
        }
    }
}

/// Every code below a node extends the prefix by at least one bit per
/// internal level, and uses only the bits `0` and `1`.
proof fn lemma_codebook_codes(link: Option<Box<HNode>>, prefix: Seq<char>)
    requires
        forall|i: int| 0 <= i < prefix.len() ==> prefix[i] == '0' || prefix[i] == '1',
    ensures
        forall|k: int|
            0 <= k < link_codebook(link, prefix).len() ==> {
                let code = (#[trigger] link_codebook(link, prefix)[k]).1;
                &&& code.len() >= prefix.len()
                &&& (forall|i: int| 0 <= i < code.len() ==> code[i] == '0' || code[i] == '1')
                &&& code.take(prefix.len() as int) == prefix
            },
    decreases link,
{
    match link {
        None => {},
        Some(node) => {
            if node.spec_is_leaf() {
                match node.ch {
                    Some(ch) => {
                        assert(link_codebook(link, prefix)[0].1.take(prefix.len() as int)
                            =~= prefix);
                    },
                    None => {},
                }
            } else {
                assert forall|i: int|
                    0 <= i < prefix.push('0').len() implies prefix.push('0')[i] == '0'
                    || prefix.push('0')[i] == '1' by {}
                assert forall|i: int|
                    0 <= i < prefix.push('1').len() implies prefix.push('1')[i] == '0'
                    || prefix.push('1')[i] == '1' by {}
                lemma_codebook_codes(node.left, prefix.push('0'));
                lemma_codebook_codes(node.right, prefix.push('1'));
                let a = link_codebook(node.left, prefix.push('0'));
                let b = link_codebook(node.right, prefix.push('1'));
                assert forall|k: int|
                    0 <= k < (a + b).len() implies {
                    let code = ((#[trigger] (a + b)[k])).1;
                    &&& code.len() >= prefix.len()
                    &&& (forall|i: int| 0 <= i < code.len() ==> code[i] == '0' || code[i] == '1')
                    &&& code.take(prefix.len() as int) == prefix
                } by {
                    if k < a.len() {
                        assert((a + b)[k] == a[k]);
                        assert(a[k].1.take(prefix.push('0').len() as int) == prefix.push('0'));
                        assert(a[k].1.take(prefix.len() as int) =~= prefix) by {
                            assert(forall|i: int|
                                0 <= i < prefix.len() ==> #[trigger] a[k].1.take(
                                    prefix.push('0').len() as int,
                                )[i] == a[k].1[i]);
                        }
                    } else {
                        assert((a + b)[k] == b[k - a.len()]);
                        assert(b[k - a.len()].1.take(prefix.push('1').len() as int)
                            == prefix.push('1'));
                        assert(b[k - a.len()].1.take(prefix.len() as int) =~= prefix) by {
                            assert(forall|i: int|
                                0 <= i < prefix.len() ==> #[trigger] b[k - a.len()].1.take(
                                    prefix.push('1').len() as int,
                                )[i] == b[k - a.len()].1[i]);
                        }
                    }
                }
            }
        },
    }
}

/// A nested codebook never hands out the empty code below an internal node.
proof fn lemma_codebook_nonempty(link: Option<Box<HNode>>, prefix: Seq<char>)
    requires
        prefix.len() >= 1,
        forall|i: int| 0 <= i < prefix.len() ==> prefix[i] == '0' || prefix[i] == '1',
    ensures
        forall|k: int|
            0 <= k < link_codebook(link, prefix).len()
                ==> (#[trigger] link_codebook(link, prefix)[k]).1.len() >= 1,
{
    lemma_codebook_codes(link, prefix);
}

/// The codes a whole tree yields are nonempty below an internal root and
/// use only the bits `0` and `1`.
proof fn lemma_codebook_codes_node(n: HNode, prefix: Seq<char>)
    requires
        !n.spec_is_leaf(),
        forall|i: int| 0 <= i < prefix.len() ==> prefix[i] == '0' || prefix[i] == '1',
    ensures
        forall|k: int|
            0 <= k < n.codebook_below(prefix).len() ==> ({
                let code = (#[trigger] n.codebook_below(prefix)[k]).1;
                &&& code.len() >= prefix.len() + 1
                &&& (forall|i: int| 0 <= i < code.len() ==> code[i] == '0' || code[i] == '1')
            }),
{
    assert forall|i: int|
        0 <= i < prefix.push('0').len() implies prefix.push('0')[i] == '0' || prefix.push(
        '0',
    )[i] == '1' by {}
    assert forall|i: int|
        0 <= i < prefix.push('1').len() implies prefix.push('1')[i] == '0' || prefix.push(
        '1',
    )[i] == '1' by {}
    lemma_codebook_codes(n.left, prefix.push('0'));
    lemma_codebook_codes(n.right, prefix.push('1'));
    let a = link_codebook(n.left, prefix.push('0'));
    let b = link_codebook(n.right, prefix.push('1'));
    assert forall|k: int|
        0 <= k < (a + b).len() implies ({
        let code = ((#[trigger] (a + b)[k])).1;
        &&& code.len() >= prefix.len() + 1
        &&& (forall|i: int| 0 <= i < code.len() ==> code[i] == '0' || code[i] == '1')
    }) by {
        if k < a.len() {
            assert((a + b)[k] == a[k]);
        } else {
            assert((a + b)[k] == b[k - a.len()]);
        }
    }
}

/// Walking the tree over one of its own codes, from the node the code's
/// prefix leads to, emits exactly that code's character and then continues
/// from the root: the codebook and the decoder agree symbol by symbol.
proof fn lemma_code_walk(root: HNode, cur: HNode, prefix: Seq<char>, k: int, tail: Seq<char>)
    requires
        !cur.spec_is_leaf(),
        forall|i: int| 0 <= i < prefix.len() ==> prefix[i] == '0' || prefix[i] == '1',
        0 <= k < cur.codebook_below(prefix).len(),
    ensures
        ({
            let c = cur.codebook_below(prefix)[k].0;
            let code = cur.codebook_below(prefix)[k].1;
            decode_walk(root, cur, code.skip(prefix.len() as int) + tail) == (
            match decode_walk(root, root, tail) {
                None => None::<Seq<char>>,
                Some(rest) => Some(seq![c] + rest),
            })
        }),
    decreases cur,
{
    let p = prefix.len() as int;
    let a = link_codebook(cur.left, prefix.push('0'));
    let b = link_codebook(cur.right, prefix.push('1'));
    let c = cur.codebook_below(prefix)[k].0;
    let code = cur.codebook_below(prefix)[k].1;
    lemma_codebook_codes(cur.left, prefix.push('0'));
    lemma_codebook_codes(cur.right, prefix.push('1'));

    if k < a.len() {
        assert(cur.codebook_below(prefix)[k] == a[k]);
        match cur.left {
            None => {},
            Some(nb) => {
                let next = *nb;
                assert(code.take(p + 1) == prefix.push('0'));
                assert(code.len() >= p + 1);
                assert(code[p] == '0') by {
                    assert(code.take(p + 1)[p] == code[p]);
                }
                let bits = code.skip(p) + tail;
                assert(bits[0] == code[p]);
                if next.spec_is_leaf() {
                    match next.ch {
                        Some(ch) => {
                            assert(a =~= seq![(ch, prefix.push('0'))]);
                            assert(c == ch && code == prefix.push('0'));
                            assert(code.skip(p) =~= seq!['0']);
                            assert(bits.drop_first() =~= tail);
                        },
                        None => {
                            assert(a =~= Seq::<(char, Seq<char>)>::empty());
                        },
                    }
                } else {
                    lemma_code_walk(root, next, prefix.push('0'), k, tail);
                    assert(bits.drop_first() =~= code.skip(p + 1) + tail);
                    assert(code.skip(p + 1) =~= code.skip(prefix.push('0').len() as int));
                }
            },
        }
    } else {
        assert(cur.codebook_below(prefix)[k] == b[k - a.len()]);
        match cur.right {
            None => {},
            Some(nb) => {
                let next = *nb;
                assert(code.take(p + 1) == prefix.push('1'));
                assert(code.len() >= p + 1);
                assert(code[p] == '1') by {
                    assert(code.take(p + 1)[p] == code[p]);
                }
                let bits = code.skip(p) + tail;
                assert(bits[0] == code[p]);
                if next.spec_is_leaf() {
                    match next.ch {
                        Some(ch) => {
                            assert(b =~= seq![(ch, prefix.push('1'))]);
                            assert(c == ch && code == prefix.push('1'));
                            assert(code.skip(p) =~= seq!['1']);
                            assert(bits.drop_first() =~= tail);
                        },
                        None => {
                            assert(b =~= Seq::<(char, Seq<char>)>::empty());
                        },
                    }
                } else {
                    lemma_code_walk(root, next, prefix.push('1'), k - a.len(), tail);
                    assert(bits.drop_first() =~= code.skip(p + 1) + tail);
                    assert(code.skip(p + 1) =~= code.skip(prefix.push('1').len() as int));
                }
            },
        }
    }
}

/// A successful codebook lookup names a stored entry.
proof fn lemma_code_find_entry(codes: Seq<(char, Seq<char>)>, c: char)
    requires
        code_find(codes, c) is Some,
    ensures
        exists|k: int|
            0 <= k < codes.len() && (#[trigger] codes[k]).0 == c && codes[k].1 == code_find(
                codes,
                c,
            ).unwrap(),
    decreases codes.len(),
{
    if codes.len() > 0 {
        if codes[0].0 == c {
            assert(codes[0].0 == c && codes[0].1 == code_find(codes, c).unwrap());
        } else {
            lemma_code_find_entry(codes.drop_first(), c);
            let k = choose|k: int|
                0 <= k < codes.drop_first().len() && (#[trigger] codes.drop_first()[k]).0 == c
                    && codes.drop_first()[k].1 == code_find(codes.drop_first(), c).unwrap();
            assert(codes[k + 1].0 == c && codes[k + 1].1 == code_find(codes, c).unwrap());
        }
    }
}

/// Decoding inverts encoding, symbol by symbol: whatever the codebook of an
/// internal tree encodes, walking the same tree decodes back.
proof fn lemma_roundtrip(root: HNode, t: Seq<char>)
    requires
        !root.spec_is_leaf(),
    ensures
        (match encode_text(root.codebook_below(Seq::empty()), t) {
            None => true,
            Some(e) => decode_walk(root, root, e) == Some(t),
        }),
    decreases t.len(),
{
    let table = root.codebook_below(Seq::empty());
    if t.len() == 0 {
    } else {
        match code_find(table, t[0]) {
            None => {},
            Some(code) => {
                lemma_roundtrip(root, t.drop_first());
                match encode_text(table, t.drop_first()) {
                    None => {},
                    Some(rest_e) => {
                        lemma_code_find_entry(table, t[0]);
                        let k = choose|k: int|
                            0 <= k < table.len() && (#[trigger] table[k]).0 == t[0] && table[k].1
                                == code;
                        lemma_code_walk(root, root, Seq::empty(), k, rest_e);
                        assert(code.skip(0) + rest_e =~= code + rest_e);
                        assert(seq![t[0]] + t.drop_first() =~= t);
                    },
                }
            },
        }
    }
}

/// The character at any position has a positive count.
proof fn lemma_char_count_positive(s: Seq<char>, i: int)
    requires
        0 <= i < s.len(),
    ensures
        char_count(s, s[i]) > 0,
    decreases i,
{
    if i == 0 {
    } else {
        lemma_char_count_positive(s.drop_first(), i - 1);
        assert(s.drop_first()[i - 1] == s[i]);
    }
}

/// A character with a positive count occurs in the text.
proof fn lemma_char_count_occurs(s: Seq<char>, c: char)
    requires
        char_count(s, c) > 0,
    ensures
        exists|i: int| 0 <= i < s.len() && s[i] == c,
    decreases s.len(),
{
    if s.len() > 0 && s[0] != c {
        lemma_char_count_occurs(s.drop_first(), c);
        let i = choose|i: int| 0 <= i < s.drop_first().len() && s.drop_first()[i] == c;
        assert(s[i + 1] == c);
    }
}

/// Membership in a node-level codebook, stated without the optional
/// wrapper.
proof fn lemma_codebook_has_node(n: HNode, prefix: Seq<char>, c: char)
    ensures
        code_find(n.codebook_below(prefix), c) is Some <==> n.has(c),
    decreases n,
{
    if n.spec_is_leaf() {
        match n.ch {
            Some(ch) => {
                assert(n.codebook_below(prefix) =~= seq![(ch, prefix)]);
                assert(seq![(ch, prefix)].drop_first() =~= Seq::<(char, Seq<char>)>::empty());
                assert(code_find(Seq::<(char, Seq<char>)>::empty(), c) is None);
            },
            None => {},
        }
    } else {
        lemma_codebook_has(n.left, prefix.push('0'), c);
        lemma_codebook_has(n.right, prefix.push('1'), c);
        lemma_code_find_concat(
            link_codebook(n.left, prefix.push('0')),
            link_codebook(n.right, prefix.push('1')),
            c,
        );
    }
}

/// The characters-and-bit-strings view of a code list.
pub open spec fn code_views(v: Seq<(char, String)>) -> Seq<(char, Seq<char>)> {
    Seq::new(v.len(), |i: int| (v[i].0, v[i].1@))
}

fn gen_codes_helper(node: &HNode, prefix: &String, out: &mut Vec<(char, String)>)
    ensures
        code_views(final(out)@) == code_views(old(out)@) + node.codebook_below(prefix@),
    decreases *node,
{
    let leaf = node.left.is_none() && node.right.is_none();
    if leaf {
        match &node.ch {
            Some(ch) => {
                out.push((*ch, prefix.clone()));
                proof {
                    assert(code_views(final(out)@) =~= code_views(old(out)@)
                        + node.codebook_below(prefix@));
                }
            },
            None => {
                proof {
                    assert(code_views(final(out)@) =~= code_views(old(out)@)
                        + node.codebook_below(prefix@));
                }
            },
        }
    } else {
        let ghost mark0 = out@;
        match &node.left {
            Some(l) => {
                let mut p0 = prefix.clone();
                push_char(&mut p0, '0');
                gen_codes_helper(&**l, &p0, out);
            },
            None => {},
        }
        let ghost mark1 = out@;
        proof {
            assert(code_views(mark1) =~= code_views(mark0) + link_codebook(
                node.left,
                prefix@.push('0'),
            ));
        }
        match &node.right {
            Some(r) => {
                let mut p1 = prefix.clone();
                push_char(&mut p1, '1');
                gen_codes_helper(&**r, &p1, out);
            },
            None => {},
        }
        proof {
            assert(code_views(final(out)@) =~= code_views(mark1) + link_codebook(
                node.right,
                prefix@.push('1'),
            ));
            assert(code_views(final(out)@) =~= code_views(old(out)@) + node.codebook_below(
                prefix@,
            ));
        }
    }
}

/// The codebook a tree yields: a lone leaf is assigned the one-bit code
/// `0`, anything else its path.
spec fn tree_codebook(root: HNode) -> Seq<(char, Seq<char>)> {
    if root.spec_is_leaf() {
        match root.ch {
            Some(c) => seq![(c, seq!['0'])],
            None => Seq::empty(),
        }
    } else {
        root.codebook_below(Seq::empty())
    }
}

fn generate_codes(root: &HNode) -> (r: Vec<(char, String)>)
    ensures
        code_views(r@) == tree_codebook(*root),
{
    let mut out: Vec<(char, String)> = Vec::new();
    let leaf = root.left.is_none() && root.right.is_none();
    if leaf {
        match &root.ch {
            Some(ch) => {
                let mut zero = String::new();
                push_char(&mut zero, '0');
                out.push((*ch, zero));
                proof {
                    assert(code_views(out@) =~= tree_codebook(*root));
                }
            },
            None => {
                proof {
                    assert(code_views(out@) =~= tree_codebook(*root));
                }
            },
        }
    } else {
        let prefix = String::new();
        gen_codes_helper(root, &prefix, &mut out);
        proof {
            assert(code_views(Seq::<(char, String)>::empty()) =~= Seq::<(
                char,
                Seq<char>,
            )>::empty());
            assert(code_views(out@) =~= tree_codebook(*root));
        }
    }
    out
}

impl HuffmanCodec {
    /// Build a codec from `text`: count frequencies, build the tree, read
    /// the codebook off it. Fails exactly on empty input, and every
    /// character of `text` receives a code.
    pub fn from_text(text: &str) -> (r: Result<HuffmanCodec, String>)
        ensures
            r is Ok <==> text@.len() > 0,
            r matches Ok(codec) ==> forall|c: char|
                char_count(text@, c) > 0 <==> code_find(#[trigger] codec.code_table(), c) is Some,
            r matches Ok(codec) ==> forall|k: int|
                0 <= k < codec.code_table().len() ==> ({
                    let code = (#[trigger] codec.code_table()[k]).1;
                    &&& code.len() >= 1
                    &&& (forall|i: int| 0 <= i < code.len() ==> code[i] == '0' || code[i] == '1')
                }),
            (text@.len() > 0 && (forall|i: int| 0 <= i < text@.len() ==> #[trigger] text@[i] == text@[0]))
                ==> (r matches Ok(codec) && codec.code_table() =~= seq![
                (text@[0], seq!['0'])
            ]),
            // the codebook and the decoder agree: each code decodes back to
            // its own character (two or more distinct characters; a lone
            // leaf cannot be walked)
            (exists|i: int, j: int|
                0 <= i < text@.len() && 0 <= j < text@.len() && text@[i] != text@[j]) ==> (
            r matches Ok(codec) && forall|k: int|
                0 <= k < codec.code_table().len() ==> #[trigger] codec.spec_decode(
                    codec.code_table()[k].1,
                ) == Some(seq![codec.code_table()[k].0])),
            // decoding inverts encoding outright (again needing a walkable,
            // internal tree)
            (exists|i: int, j: int|
                0 <= i < text@.len() && 0 <= j < text@.len() && text@[i] != text@[j]) ==> (
            r matches Ok(codec) && forall|t: Seq<char>|
                (#[trigger] encode_text(codec.code_table(), t)) matches Some(e)
                    ==> codec.spec_decode(e) == Some(t)),
    {
        if text.is_empty() {
            return Err("Empty input".to_string());
        }

        let freqs = Self::calculate_frequencies(text);
        proof {
            assert(char_count(text@, text@[0]) > 0);
            assert(freqs@.len() > 0) by {
                let w = choose|i: int| 0 <= i < freqs@.len() && (#[trigger] freqs@[i]).0 == text@[0];
            }
        }
        let root = match Self::build_tree(&freqs) {
            Ok(t) => t,
            Err(m) => {
                return Err(m);
            },
        };
        let codes = generate_codes(&root);
        let codec = HuffmanCodec { root: Some(root), codes };
        proof {
            assert(codec.code_table() =~= code_views(codec.codes@));
            assert forall|c: char|
                char_count(text@, c) > 0 <==> code_find(
                #[trigger] codec.code_table(),
                c,
            ) is Some by {
                if char_count(text@, c) > 0 {
                    assert(root.has(c)) by {
                        let w = choose|i: int|
                            0 <= i < freqs@.len() && (#[trigger] freqs@[i]).0 == c;
                    }
                    if root.spec_is_leaf() {
                        assert(tree_codebook(root)[0].0 == c);
                        assert(code_find(tree_codebook(root), c) is Some);
                    } else {
                        lemma_codebook_has_node(root, Seq::empty(), c);
                    }
                }
                if code_find(codec.code_table(), c) is Some {
                    // the codebook lists only the tree's leaves, and those
                    // are exactly the counted characters
                    assert(root.has(c)) by {
                        if root.spec_is_leaf() {
                            match root.ch {
                                Some(ch0) => {
                                    assert(tree_codebook(root) =~= seq![(ch0, seq!['0'])]);
                                    if ch0 != c {
                                        assert(seq![(ch0, seq!['0'])].drop_first() =~= Seq::<(
                                            char,
                                            Seq<char>,
                                        )>::empty());
                                        assert(code_find(
                                            Seq::<(char, Seq<char>)>::empty(),
                                            c,
                                        ) is None);
                                        assert(code_find(tree_codebook(root), c) is None);
                                    }
                                },
                                None => {
                                    assert(tree_codebook(root) =~= Seq::<(
                                        char,
                                        Seq<char>,
                                    )>::empty());
                                    assert(code_find(tree_codebook(root), c) is None);
                                },
                            }
                        } else {
                            lemma_codebook_has_node(root, Seq::empty(), c);
                        }
                    }
                    let w = choose|i: int|
                        0 <= i < freqs@.len() && (#[trigger] freqs@[i]).0 == c;
                    assert(freqs@[w].1 == char_count(text@, c) && freqs@[w].1 > 0);
                }
            }
            assert forall|k: int|
                0 <= k < codec.code_table().len() implies ({
                let code = (#[trigger] codec.code_table()[k]).1;
                &&& code.len() >= 1
                &&& (forall|i: int| 0 <= i < code.len() ==> code[i] == '0' || code[i] == '1')
            }) by {
                if root.spec_is_leaf() {
                    assert(codec.code_table()[k].1 =~= seq!['0']);
                } else {
                    lemma_codebook_codes_node(root, Seq::empty());
                }
            }
            if exists|i: int, j: int|
                0 <= i < text@.len() && 0 <= j < text@.len() && text@[i] != text@[j] {
                // two distinct characters give two frequency entries, so
                // the root is internal and every code walks to its leaf
                let (i0, j0) = choose|i: int, j: int|
                    0 <= i < text@.len() && 0 <= j < text@.len() && text@[i] != text@[j];
                assert(freqs@.len() >= 2) by {
                    lemma_char_count_positive(text@, i0);
                    lemma_char_count_positive(text@, j0);
                    let wi = choose|t: int|
                        0 <= t < freqs@.len() && (#[trigger] freqs@[t]).0 == text@[i0];
                    let wj = choose|t: int|
                        0 <= t < freqs@.len() && (#[trigger] freqs@[t]).0 == text@[j0];
                    if freqs@.len() < 2 {
                        assert(wi == wj);
                    }
                }
                assert(!root.spec_is_leaf());
                assert forall|k: int|
                    0 <= k < codec.code_table().len() implies #[trigger] codec.spec_decode(
                    codec.code_table()[k].1,
                ) == Some(seq![codec.code_table()[k].0]) by {
                    let code = codec.code_table()[k].1;
                    let c = codec.code_table()[k].0;
                    assert(codec.code_table() == root.codebook_below(Seq::empty()));
                    lemma_code_walk(root, root, Seq::empty(), k, Seq::empty());
                    assert(code.skip(0) + Seq::<char>::empty() =~= code);
                    assert(decode_walk(root, root, Seq::<char>::empty()) == Some(
                        Seq::<char>::empty(),
                    ));
                    assert(seq![c] + Seq::<char>::empty() =~= seq![c]);
                }
                assert forall|t: Seq<char>|
                    (#[trigger] encode_text(codec.code_table(), t)) is Some
                        implies codec.spec_decode(
                    encode_text(codec.code_table(), t).unwrap()) == Some(t) by {
                    lemma_roundtrip(root, t);
                }
            }
            if text@.len() > 0 && (forall|i: int| 0 <= i < text@.len() ==> #[trigger] text@[i] == text@[0]) {
                // one distinct character: the frequency table is a
                // singleton, the tree a lone leaf, and its code is `0`
                assert forall|i: int|
                    0 <= i < freqs@.len() implies (#[trigger] freqs@[i]).0 == text@[0] by {
                    lemma_char_count_occurs(text@, freqs@[i].0);
                }
                let w = choose|i: int|
                    0 <= i < freqs@.len() && (#[trigger] freqs@[i]).0 == text@[0];
                assert(freqs@.len() == 1) by {
                    if freqs@.len() > 1 {
                        assert(freqs@[0].0 == text@[0] && freqs@[1].0 == text@[0]);
                    }
                }
                assert(root.spec_is_leaf() && root.ch == Some(text@[0]));
                assert(codec.code_table() =~= seq![(text@[0], seq!['0'])]);
            }
        }
        Ok(codec)
    }


    /// What decoding a non-empty bit string against this codec yields;
    /// nothing decodes without a tree.
    pub closed spec fn spec_decode(self, bits: Seq<char>) -> Option<Seq<char>> {
        match self.root {
            None => None,
            Some(tree) => decode_walk(tree, tree, bits),
        }
    }

    /// Decode a bit string by walking the tree. The empty string decodes to
    /// the empty string; otherwise decoding succeeds exactly when the walk
    /// does.
    pub fn decode(&self, encoded: &str) -> (r: Result<String, String>)
        ensures
            encoded@.len() == 0 ==> (r matches Ok(t) && t@ == Seq::<char>::empty()),
            encoded@.len() > 0 ==> ((r matches Ok(t) ==> self.spec_decode(encoded@) == Some(t@))
                && (r is Err <==> self.spec_decode(encoded@) is None)),
    {
        if encoded.is_empty() {
            return Ok(String::new());
        }

        let root = match &self.root {
            Some(t) => t,
            None => {
                return Err("No tree available".to_string());
            },
        };

        let bits = chars_of(encoded);
        let n = bits.len();
        let mut out = String::new();
        let mut current: &HNode = root;
        let mut i: usize = 0;
        proof {
            assert(bits@.skip(0) =~= bits@);
        }
        while i < n
            invariant
                n == bits.len(),
                i <= n,
                bits@ == encoded@,
                self.root == Some(*root),
                match decode_walk(*root, *current, bits@.skip(i as int)) {
                    None => self.spec_decode(encoded@) is None,
                    Some(rest) => self.spec_decode(encoded@) == Some(out@ + rest),
                },
            decreases n - i,
        {
            proof {
                assert(bits@.skip(i as int)[0] == bits@[i as int]);
                assert(bits@.skip(i as int).drop_first() =~= bits@.skip(i + 1));
            }
            let b = bits[i];
            let next: &HNode = if b == '0' {
                match &current.left {
                    Some(l) => &**l,
                    None => {
                        return Err("Invalid encoding: unexpected '0'".to_string());
                    },
                }
            } else if b == '1' {
                match &current.right {
                    Some(r2) => &**r2,
                    None => {
                        return Err("Invalid encoding: unexpected '1'".to_string());
                    },
                }
            } else {
                let mut msg = String::new();
                append_str(&mut msg, "Invalid bit: ");
                push_char(&mut msg, b);
                return Err(msg);
            };

            let leaf = next.left.is_none() && next.right.is_none();
            let mut emitted = false;
            match &next.ch {
                Some(ch) => {
                    if leaf {
                        let ghost pre = out@;
                        push_char(&mut out, *ch);
                        current = root;
                        emitted = true;
                        proof {
                            if decode_walk(*root, *root, bits@.skip(i + 1)) is Some {
                                let rest = decode_walk(*root, *root, bits@.skip(i + 1)).unwrap();
                                assert(out@ + rest =~= pre + (seq![*ch] + rest));
                            }
                        }
                    }
                },
                None => {},
            }
            if !emitted {
                current = next;
            }
            i += 1;
        }
        proof {
            assert(bits@.skip(n as int) =~= Seq::<char>::empty());
            assert(out@ + Seq::<char>::empty() =~= out@);
        }
        Ok(out)
    }

    /// The code for one character, if it is in the codebook.
    pub fn get_code(&self, ch: char) -> (r: Option<&String>)
        ensures
            match r {
                Some(code) => code_find(self.code_table(), ch) == Some(code@),
                None => code_find(self.code_table(), ch) is None,
            },
    {
        let n = self.codes.len();
        let mut i: usize = 0;
        proof {
            assert(self.code_table().skip(0) =~= self.code_table());
        }
        while i < n
            invariant
                n == self.codes.len(),
                i <= n,
                self.code_table().len() == n,
                code_find(self.code_table(), ch) == code_find(self.code_table().skip(i as int), ch),
            decreases n - i,
        {
            proof {
                assert(self.code_table().skip(i as int)[0] == self.code_table()[i as int]);
                assert(self.code_table().skip(i as int).drop_first() =~= self.code_table().skip(
                    i + 1,
                ));
            }
            if self.codes[i].0 == ch {
                return Some(&self.codes[i].1);
            }
            i += 1;
        }
        proof {
            assert(self.code_table().skip(n as int) =~= Seq::<(char, Seq<char>)>::empty());
        }
        None
    }

    /// The whole codebook.
    pub fn codebook(&self) -> (r: &Vec<(char, String)>)
        ensures
            code_views(r@) == self.code_table(),
    {
        proof {
            assert(code_views(self.codes@) =~= self.code_table());
        }
        &self.codes
    }

    /// Encode `text` as the concatenation of its characters' codes; a
    /// character without a code fails the whole encoding.
    pub fn encode(&self, text: &str) -> (r: Result<String, String>)
        ensures
            r matches Ok(e) ==> encode_text(self.code_table(), text@) == Some(e@),
            r is Err <==> encode_text(self.code_table(), text@) is None,
    {
        let cs = chars_of(text);
        let n = cs.len();
        let mut out = String::new();
        let mut i: usize = 0;
        proof {
            assert(cs@.skip(0) =~= cs@);
        }
        while i < n
            invariant
                n == cs.len(),
                i <= n,
                cs@ == text@,
                match encode_text(self.code_table(), cs@.skip(i as int)) {
                    None => encode_text(self.code_table(), cs@) is None,
                    Some(rest) => encode_text(self.code_table(), cs@) == Some(out@ + rest),
                },
            decreases n - i,
        {
            proof {
                assert(cs@.skip(i as int)[0] == cs@[i as int]);
                assert(cs@.skip(i as int).drop_first() =~= cs@.skip(i + 1));
            }
            let c = cs[i];
            match self.get_code(c) {
                Some(code) => {
                    let ghost pre = out@;
                    append_str(&mut out, code.as_str());
                    proof {
                        if encode_text(self.code_table(), cs@.skip(i + 1)) is Some {
                            let rest = encode_text(self.code_table(), cs@.skip(i + 1)).unwrap();
                            assert(out@ + rest =~= pre + (code@ + rest));
                        }
                    }
                },
                None => {
                    proof {
                        assert(encode_text(self.code_table(), cs@.skip(i as int)) is None);
                    }
                    let mut msg = String::new();
                    append_str(&mut msg, "Character '");
                    push_char(&mut msg, c);
                    append_str(&mut msg, "' not in codebook");
                    return Err(msg);
                },
            }
            i += 1;
        }
        proof {
            assert(cs@.skip(n as int) =~= Seq::<char>::empty());
            assert(out@ + Seq::<char>::empty() =~= out@);
        }
        Ok(out)
    }
}
} // verus!
