//! The LZHUF codec: LZSS string matching over a ring buffer combined
//! with an adaptive Huffman coder, bit-compatible with the coder used by
//! FBB forwarding. Encoder and decoder share one mutable statistical
//! model (`LzHufState`), and every emitted or consumed bit depends on the
//! exact sequence of model mutations; the executable code is therefore
//! specified against ghost mirrors of each mutation, so that the
//! contracts pin the whole state transition down.

use vstd::prelude::*;

verus! {

/// Ring buffer size.
pub const N: u16 = 2048;

/// Longest match the coder will emit.
pub const F: u16 = 60;

/// Matches of this length or shorter are emitted as literals.
pub const THRESHOLD: u16 = 2;

/// Null link in the encoder's search tree.
pub const NIL: u16 = 2048;

/// Number of coded symbols: 256 literals plus match lengths 3..=60.
pub const N_CHAR: u16 = 314;

/// Number of Huffman table slots (leaves plus internal nodes).
pub const T: u16 = 627;

/// Position of the root in the Huffman table.
pub const R: u16 = 626;

/// Root count that triggers a rebuild of the tree.
pub const MAX_FREQ: u16 = 0x8000;

/// Ghost mirror of the adaptive Huffman model plus the ring buffer.
#[verifier::ext_equal]
pub ghost struct LzModel {
    pub freq: Seq<u16>,
    pub parents: Seq<u16>,
    pub children: Seq<u16>,
    pub text: Seq<u8>,
    pub r: u16,
}

/// Addition on the 16-bit table entries, wrapping as the machine does.
pub open spec fn add16(a: u16, b: u16) -> u16 {
    ((a + b) % 0x10000) as u16
}

impl LzModel {
    /// Array sizes, index bounds of the two link tables, the sentinel
    /// above the root, and the ring cursor staying inside the ring.
    /// These are what every mutation needs and preserves.
    pub open spec fn wf(self) -> bool {
        &&& self.freq.len() == 628
        &&& self.parents.len() == 941
        &&& self.children.len() == 627
        &&& self.text.len() == 2107
        &&& self.r < 2048
        &&& self.freq[627] == 0xffff
        &&& (forall|i: int| 0 <= i < 627 ==> #[trigger] self.children[i] < 941)
        &&& (forall|i: int| 0 <= i < 941 ==> #[trigger] self.parents[i] < 627)
    }
}

/// Leaf initialisation: symbol `i` gets count 1, leaf slot `i + T`, and
/// the leaf points back at position `i`.
pub open spec fn init_leaves(m: LzModel, i: int) -> LzModel
    decreases 314 - i,
{
    if i < 0 || i >= 314 {
        m
    } else {
        init_leaves(
            LzModel {
                freq: m.freq.update(i, 1),
                children: m.children.update(i, (i + 627) as u16),
                parents: m.parents.update(i + 627, i as u16),
                ..m
            },
            i + 1,
        )
    }
}

/// Pair counts bottom-up: position `j` holds the sum of the pair it
/// folds.
pub open spec fn init_pairs(m: LzModel, j: int) -> LzModel
    decreases 627 - j,
{
    if j < 314 || j >= 627 {
        m
    } else {
        let i = 2 * (j - 314);
        init_pairs(LzModel { freq: m.freq.update(j, add16(m.freq[i], m.freq[i + 1])), ..m }, j + 1)
    }
}

/// Internal links: position `j` points at the pair `(i, i + 1)`, and
/// both pair members point back at `j`.
pub open spec fn init_internal(m: LzModel, j: int) -> LzModel
    decreases 627 - j,
{
    if j < 314 || j >= 627 {
        m
    } else {
        let i = 2 * (j - 314);
        init_internal(
            LzModel {
                children: m.children.update(j, i as u16),
                parents: m.parents.update(i, j as u16).update(i + 1, j as u16),
                ..m
            },
            j + 1,
        )
    }
}

/// The freshly initialised model: ring full of spaces, cursor at
/// `N - F`, flat tree over all symbols with unit counts, sentinel above
/// the root.
pub open spec fn spec_init() -> LzModel {
    let m0 = LzModel {
        freq: Seq::new(628, |i: int| 0u16),
        parents: Seq::new(941, |i: int| 0u16),
        children: Seq::new(627, |i: int| 0u16),
        text: Seq::new(2107, |i: int| 0x20u8),
        r: 1988,
    };
    let m1 = init_internal(init_pairs(init_leaves(m0, 0), 314), 314);
    LzModel { freq: m1.freq.update(627, 0xffff), parents: m1.parents.update(626, 0), ..m1 }
}

/// One byte enters the ring at the cursor; the cursor wraps mod `N`.
pub open spec fn spec_update_text(m: LzModel, c: u8) -> LzModel {
    LzModel { text: m.text.update(m.r as int, c), r: (((m.r + 1) as u16) & 2047) as u16, ..m }
}

/// Rebuild, phase one: keep the leaves, in table order, at the low
/// positions, halving each count (rounding up).
pub open spec fn recon_compact(m: LzModel, i: int, j: int) -> (LzModel, int)
    decreases 627 - i,
{
    if i < 0 || i >= 627 {
        (m, j)
    } else if m.children[i] >= 627 {
        recon_compact(
            LzModel {
                freq: m.freq.update(j, ((m.freq[i] + 1) / 2) as u16),
                children: m.children.update(j, m.children[i]),
                ..m
            },
            i + 1,
            j + 1,
        )
    } else {
        recon_compact(m, i + 1, j)
    }
}

/// Rebuild, phase two, inner scan: the greatest position at or below
/// `k` whose count is not above `f`.
pub open spec fn recon_find_k(freq: Seq<u16>, f: u16, k: int) -> int
    decreases k,
{
    if k <= 0 {
        0
    } else if f < freq[k] {
        recon_find_k(freq, f, k - 1)
    } else {
        k
    }
}

/// Entries `[k+1, k+l]` each take the value of their left neighbour.
pub open spec fn shift_up(s: Seq<u16>, k: int, l: int) -> Seq<u16> {
    Seq::new(s.len(), |m: int| if k + 1 <= m <= k + l { s[m - 1] } else { s[m] })
}

/// Rebuild, phase two: each internal position `j` takes the pair sum of
/// entries `2(j - N_CHAR)` and its neighbour, inserted at the position
/// that keeps counts non-decreasing, shifting what sits in between.
pub open spec fn recon_build(m: LzModel, j: int) -> LzModel
    decreases 627 - j,
{
    if j < 314 || j >= 627 {
        m
    } else {
        let i = 2 * (j - 314);
        let f = add16(m.freq[i], m.freq[i + 1]);
        let m1 = LzModel { freq: m.freq.update(j, f), ..m };
        let k = recon_find_k(m1.freq, f, j - 1) + 1;
        let l = if 2 * (j - k) <= 626 - k {
            2 * (j - k)
        } else {
            626 - k
        };
        let m2 = LzModel {
            freq: shift_up(m1.freq, k, l).update(k, f),
            children: shift_up(m1.children, k, l).update(k, i as u16),
            ..m1
        };
        recon_build(m2, j + 1)
    }
}

/// Rebuild, phase three: parent links recomputed from the child links;
/// an internal child owns two parent slots, a leaf one.
pub open spec fn recon_parents(m: LzModel, i: int) -> LzModel
    decreases 627 - i,
{
    if i < 0 || i >= 627 {
        m
    } else {
        let k = m.children[i] as int;
        let m2 = if k >= 627 {
            LzModel { parents: m.parents.update(k, i as u16), ..m }
        } else {
            LzModel { parents: m.parents.update(k + 1, i as u16).update(k, i as u16), ..m }
        };
        recon_parents(m2, i + 1)
    }
}

/// The whole rebuild.
pub open spec fn spec_reconstruct(m: LzModel) -> LzModel {
    recon_parents(recon_build(recon_compact(m, 0, 0).0, 314), 0)
}

/// Walk scan: the first position at or above `l` whose count is at
/// least `k` (the sentinel stops it).
pub open spec fn find_l(freq: Seq<u16>, k: u16, l: int) -> int
    decreases 628 - l,
{
    if l < 0 || l >= 627 {
        l
    } else if k > freq[l] {
        find_l(freq, k, l + 1)
    } else {
        l
    }
}

/// One step of the update walk at position `c`: bump the count; if it
/// now exceeds the right neighbour's, move the entry right to the last
/// position it exceeds, exchanging the two subtrees and rewriting the
/// parent slots of both.
pub open spec fn upd_step(m: LzModel, c: int) -> (LzModel, int) {
    let k = add16(m.freq[c], 1);
    let m1 = LzModel { freq: m.freq.update(c, k), ..m };
    if k > m1.freq[c + 1] {
        let l = find_l(m1.freq, k, c + 2) - 1;
        let m2 = LzModel { freq: m1.freq.update(c, m1.freq[l]).update(l, k), ..m1 };
        let i = m2.children[c] as int;
        let p1 = m2.parents.update(i, l as u16);
        let p2 = if i < 627 {
            p1.update(i + 1, l as u16)
        } else {
            p1
        };
        let jj = m2.children[l] as int;
        let p3 = p2.update(jj, c as u16);
        let p4 = if jj < 627 {
            p3.update(jj + 1, c as u16)
        } else {
            p3
        };
        let ch = m2.children.update(l, i as u16).update(c, jj as u16);
        (LzModel { parents: p4, children: ch, ..m2 }, l)
    } else {
        (m1, c)
    }
}

/// The update walk from a leaf's position to the root: step, then climb
/// to the parent, until the slot above the root is reached. The fuel
/// bounds the climb by the table size, which a well-formed tree never
/// reaches.
pub open spec fn upd_walk(m: LzModel, c: int, fuel: nat) -> LzModel
    decreases fuel,
{
    if fuel == 0 {
        m
    } else {
        let sc = upd_step(m, c);
        let c2 = sc.0.parents[sc.1] as int;
        if c2 == 0 {
            sc.0
        } else {
            upd_walk(sc.0, c2, (fuel - 1) as nat)
        }
    }
}

/// A full `update(sym)`: rebuild first if the root count has reached
/// `MAX_FREQ`, then walk from the symbol's leaf.
pub open spec fn spec_update(m: LzModel, sym: u16) -> LzModel {
    let m0 = if m.freq[626] == 0x8000 {
        spec_reconstruct(m)
    } else {
        m
    };
    upd_walk(m0, m0.parents[sym + 627] as int, 627)
}

/// The adaptive Huffman model plus the ring text buffer.
#[derive(Debug)]
pub struct LzHufState {
    frequency_table: Vec<u16>,
    parents: Vec<u16>,
    children: Vec<u16>,
    text_buffer: Vec<u8>,
    r: u16,
}

impl View for LzHufState {
    type V = LzModel;

    closed spec fn view(&self) -> LzModel {
        LzModel {
            freq: self.frequency_table@,
            parents: self.parents@,
            children: self.children@,
            text: self.text_buffer@,
            r: self.r,
        }
    }
}

impl LzHufState {
    /// Build the initial model.
    pub fn new() -> (s: LzHufState)
        ensures
            s@ == spec_init(),
            s@.wf(),
    {
        let mut frequency_table: Vec<u16> = vec![0u16; 628];
        let mut parents: Vec<u16> = vec![0u16; 941];
        let mut children: Vec<u16> = vec![0u16; 627];
        let text_buffer: Vec<u8> = vec![0x20u8; 2107];
        let ghost m0 = LzModel {
            freq: frequency_table@,
            parents: parents@,
            children: children@,
            text: text_buffer@,
            r: 1988,
        };
        proof {
            assert(m0.freq =~= Seq::new(628, |i: int| 0u16));
            assert(m0.parents =~= Seq::new(941, |i: int| 0u16));
            assert(m0.children =~= Seq::new(627, |i: int| 0u16));
            assert(m0.text =~= Seq::new(2107, |i: int| 0x20u8));
        }

        let mut i: u16 = 0;
        while i < 314
            invariant
                i <= 314,
                frequency_table@.len() == 628,
                parents@.len() == 941,
                children@.len() == 627,
                text_buffer@.len() == 2107,
                forall|q: int| 0 <= q < 627 ==> #[trigger] children@[q] < 941,
                forall|q: int| 0 <= q < 941 ==> #[trigger] parents@[q] < 627,
                init_leaves(
                    LzModel {
                        freq: frequency_table@,
                        parents: parents@,
                        children: children@,
                        text: text_buffer@,
                        r: 1988,
                    },
                    i as int,
                ) == init_leaves(m0, 0),
            decreases 314 - i,
        {
            frequency_table[i as usize] = 1;
            children[i as usize] = i + 627;
            parents[(i + 627) as usize] = i;
            i = i + 1;
        }

        let mut j: u16 = 314;
        while j < 627
            invariant
                314 <= j <= 627,
                frequency_table@.len() == 628,
                parents@.len() == 941,
                children@.len() == 627,
                text_buffer@.len() == 2107,
                forall|q: int| 0 <= q < 627 ==> #[trigger] children@[q] < 941,
                forall|q: int| 0 <= q < 941 ==> #[trigger] parents@[q] < 627,
                init_pairs(
                    LzModel {
                        freq: frequency_table@,
                        parents: parents@,
                        children: children@,
                        text: text_buffer@,
                        r: 1988,
                    },
                    j as int,
                ) == init_pairs(init_leaves(m0, 0), 314),
            decreases 627 - j,
        {
            let i2: u16 = 2 * (j - 314);
            let a = frequency_table[i2 as usize];
            let b = frequency_table[(i2 + 1) as usize];
            frequency_table[j as usize] = ((a as u32 + b as u32) % 0x10000) as u16;
            j = j + 1;
        }

        let mut j: u16 = 314;
        while j < 627
            invariant
                314 <= j <= 627,
                frequency_table@.len() == 628,
                parents@.len() == 941,
                children@.len() == 627,
                text_buffer@.len() == 2107,
                forall|q: int| 0 <= q < 627 ==> #[trigger] children@[q] < 941,
                forall|q: int| 0 <= q < 941 ==> #[trigger] parents@[q] < 627,
                init_internal(
                    LzModel {
                        freq: frequency_table@,
                        parents: parents@,
                        children: children@,
                        text: text_buffer@,
                        r: 1988,
                    },
                    j as int,
                ) == init_internal(init_pairs(init_leaves(m0, 0), 314), 314),
            decreases 627 - j,
        {
            let i2: u16 = 2 * (j - 314);
            children[j as usize] = i2;
            parents[i2 as usize] = j;
            parents[(i2 + 1) as usize] = j;
            j = j + 1;
        }

        frequency_table[627] = 0xffff;
        parents[626] = 0;

        let s = LzHufState { frequency_table, parents, children, text_buffer, r: 1988 };
        assert(s@ == spec_init());
        s
    }

    /// Append one byte at the ring cursor and advance the cursor.
    pub fn update_text_buffer(&mut self, c: u8)
        requires
            old(self)@.wf(),
        ensures
            final(self)@ == spec_update_text(old(self)@, c),
            final(self)@.wf(),
    {
        self.text_buffer[self.r as usize] = c;
        let r1: u16 = self.r + 1;
        let r2: u16 = r1 & 2047;
        proof {
            assert(r1 & 2047 < 2048) by (bit_vector);
        }
        self.r = r2;
    }

    /// Move the table entries `[k, k+l)` one place right (count and
    /// child link together), top down, as the rebuild's insertion step
    /// does.
    fn shift_pair_up(&mut self, k: u16, l: u16)
        requires
            old(self)@.wf(),
            k + l <= 626,
        ensures
            final(self)@ == (LzModel {
                freq: shift_up(old(self)@.freq, k as int, l as int),
                children: shift_up(old(self)@.children, k as int, l as int),
                ..old(self)@
            }),
            final(self)@.wf(),
    {
        let ghost pre = self@;
        let mut m: u16 = l;
        while m > 0
            invariant
                m <= l,
                k + l <= 626,
                self@.freq.len() == 628,
                self@.children.len() == 627,
                self@.parents == pre.parents,
                self@.text == pre.text,
                self@.r == pre.r,
                pre.wf(),
                forall|q: int|
                    0 <= q < 628 ==> #[trigger] self@.freq[q] == if k + m < q <= k + l {
                        pre.freq[q - 1]
                    } else {
                        pre.freq[q]
                    },
                forall|q: int|
                    0 <= q < 627 ==> #[trigger] self@.children[q] == if k + m < q <= k + l {
                        pre.children[q - 1]
                    } else {
                        pre.children[q]
                    },
            decreases m,
        {
            self.frequency_table[(k + m) as usize] = self.frequency_table[(k + m - 1) as usize];
            self.children[(k + m) as usize] = self.children[(k + m - 1) as usize];
            m = m - 1;
        }
        proof {
            assert(self@.freq =~= shift_up(pre.freq, k as int, l as int));
            assert(self@.children =~= shift_up(pre.children, k as int, l as int));
            assert(self@ =~= (LzModel {
                freq: shift_up(pre.freq, k as int, l as int),
                children: shift_up(pre.children, k as int, l as int),
                ..pre
            }));
        }
    }

    /// Halve all leaf counts (rounding up) and rebuild the tree
    /// bottom-up, keeping counts non-decreasing across the table.
    pub fn reconstruct(&mut self)
        requires
            old(self)@.wf(),
        ensures
            final(self)@ == spec_reconstruct(old(self)@),
            final(self)@.wf(),
    {
        let ghost morig = self@;
        let mut j: u16 = 0;
        let mut i: u16 = 0;
        while i < 627
            invariant
                i <= 627,
                j <= i,
                self@.wf(),
                self@.parents == morig.parents,
                self@.text == morig.text,
                self@.r == morig.r,
                recon_compact(self@, i as int, j as int) == recon_compact(morig, 0, 0),
            decreases 627 - i,
        {
            if self.children[i as usize] >= 627 {
                let f = self.frequency_table[i as usize];
                self.frequency_table[j as usize] = ((f as u32 + 1) / 2) as u16;
                let c = self.children[i as usize];
                self.children[j as usize] = c;
                j = j + 1;
            }
            i = i + 1;
        }

        let ghost mcomp = self@;
        let mut j: u16 = 314;
        while j < 627
            invariant
                314 <= j <= 627,
                self@.wf(),
                self@.text == morig.text,
                self@.r == morig.r,
                recon_build(self@, j as int) == recon_build(mcomp, 314),
            decreases 627 - j,
        {
            let ghost mstep = self@;
            let i2: u16 = 2 * (j - 314);
            let a = self.frequency_table[i2 as usize];
            let b = self.frequency_table[(i2 + 1) as usize];
            let f: u16 = ((a as u32 + b as u32) % 0x10000) as u16;
            self.frequency_table[j as usize] = f;

            let mut k: u16 = j - 1;
            while k > 0 && f < self.frequency_table[k as usize]
                invariant
                    k <= j - 1,
                    k < 627,
                    self@.freq.len() == 628,
                    recon_find_k(self@.freq, f, k as int) == recon_find_k(
                        self@.freq,
                        f,
                        (j - 1) as int,
                    ),
                decreases k,
            {
                k = k - 1;
            }
            k = k + 1;

            let l: u16 = if 2 * (j - k) <= 626 - k {
                2 * (j - k)
            } else {
                626 - k
            };
            self.shift_pair_up(k, l);
            self.frequency_table[k as usize] = f;
            self.children[k as usize] = i2;
            j = j + 1;
        }

        let ghost mbuilt = self@;
        let mut i: u16 = 0;
        while i < 627
            invariant
                i <= 627,
                self@.wf(),
                self@.freq == mbuilt.freq,
                self@.children == mbuilt.children,
                self@.text == morig.text,
                self@.r == morig.r,
                recon_parents(self@, i as int) == recon_parents(mbuilt, 0),
            decreases 627 - i,
        {
            let kk = self.children[i as usize];
            if kk >= 627 {
                self.parents[kk as usize] = i;
            } else {
                self.parents[(kk + 1) as usize] = i;
                self.parents[kk as usize] = self.parents[(kk + 1) as usize];
            }
            i = i + 1;
        }
    }

    /// Bump the count of `sym`'s leaf and of every node on the way to
    /// the root, restoring the non-decreasing count order by subtree
    /// exchanges; rebuild first when the root count has reached
    /// `MAX_FREQ`.
    pub fn update(&mut self, sym: u16)
        requires
            old(self)@.wf(),
            sym < 314,
        ensures
            final(self)@ == spec_update(old(self)@, sym),
            final(self)@.wf(),
    {
        if self.frequency_table[626] == 0x8000 {
            self.reconstruct();
        }
        let ghost m0 = self@;
        let mut c: u16 = self.parents[(sym + 627) as usize];
        let ghost total = upd_walk(m0, c as int, 627);
        let mut steps: u16 = 0;
        while (steps == 0 || c != 0) && steps < 627
            invariant
                self@.wf(),
                c < 627,
                steps <= 627,
                if steps > 0 && c == 0 {
                    total == self@
                } else {
                    total == upd_walk(self@, c as int, (627 - steps) as nat)
                },
            decreases 627 - steps,
        {
            let ghost mpre = self@;
            let ghost cpre = c as int;
            let k: u16 = ((self.frequency_table[c as usize] as u32 + 1) % 0x10000) as u16;
            self.frequency_table[c as usize] = k;
            if k > self.frequency_table[(c + 1) as usize] {
                let mut l: u16 = c + 2;
                while k > self.frequency_table[l as usize]
                    invariant
                        c + 2 <= l <= 627,
                        self@.freq.len() == 628,
                        self@.freq[627] == 0xffff,
                        find_l(self@.freq, k, l as int) == find_l(self@.freq, k, c + 2 as int),
                    decreases 627 - l,
                {
                    l = l + 1;
                }
                l = l - 1;
                self.frequency_table[c as usize] = self.frequency_table[l as usize];
                self.frequency_table[l as usize] = k;
                let i = self.children[c as usize];
                self.parents[i as usize] = l;
                if i < 627 {
                    self.parents[(i + 1) as usize] = l;
                }
                let jj = self.children[l as usize];
                self.parents[jj as usize] = c;
                if jj < 627 {
                    self.parents[(jj + 1) as usize] = c;
                }
                self.children[l as usize] = i;
                self.children[c as usize] = jj;
                c = l;
            }
            proof {
                assert(self@ =~= upd_step(mpre, cpre).0);
                assert(c as int == upd_step(mpre, cpre).1);
            }
            c = self.parents[c as usize];
            steps = steps + 1;
        }
    }
}

/// The counts are non-decreasing across the whole table.
pub open spec fn sorted_freq(m: LzModel) -> bool {
    forall|i: int| 0 <= i < 626 ==> #[trigger] m.freq[i] <= m.freq[i + 1]
}

/// Every count is at most `bound`.
pub open spec fn freq_below(m: LzModel, bound: int) -> bool {
    forall|i: int| 0 <= i < 627 ==> #[trigger] m.freq[i] <= bound
}

/// The scan for the swap target passes only over counts below `k` and
/// stops at one that is not.
proof fn lemma_find_l_facts(freq: Seq<u16>, k: u16, l0: int)
    requires
        0 <= l0,
    ensures
        l0 <= find_l(freq, k, l0),
        forall|m: int| l0 <= m < find_l(freq, k, l0) ==> #[trigger] freq[m] < k,
        find_l(freq, k, l0) >= 627 || freq[find_l(freq, k, l0)] >= k,
    decreases 628 - l0,
{
    if l0 < 627 && k > freq[l0] {
        lemma_find_l_facts(freq, k, l0 + 1);
    }
}

/// One walk step keeps the counts sorted, raises no count by more than
/// one, and hands back a position still inside the table.
proof fn lemma_step_sorted(m: LzModel, c: int, bound: int)
    requires
        m.wf(),
        sorted_freq(m),
        freq_below(m, bound),
        bound + 1 < 0xffff,
        0 <= c < 627,
    ensures
        upd_step(m, c).0.wf(),
        sorted_freq(upd_step(m, c).0),
        freq_below(upd_step(m, c).0, bound + 1),
        0 <= upd_step(m, c).1 < 627,
        upd_step(m, c).0.parents == m.parents || upd_step(m, c).0.parents.len() == 941,
{
    let k = add16(m.freq[c], 1);
    assert(k == m.freq[c] + 1);
    let m1 = LzModel { freq: m.freq.update(c, k), ..m };
    if k > m1.freq[c + 1] {
        assert(c + 1 < 627) by {
            if c + 1 == 627 {
                assert(m1.freq[627] == 0xffff);
            }
        }
        lemma_find_l_facts(m1.freq, k, c + 2);
        let f = find_l(m1.freq, k, c + 2);
        let l = f - 1;
        assert(l <= 626) by {
            if f > 627 {
                assert(m1.freq[627] == 0xffff);
                assert(forall|q: int| c + 2 <= q < f ==> #[trigger] m1.freq[q] < k);
                assert(m1.freq[627] < k);
            }
        }
        // everything strictly between c and the target holds the old
        // count: it is below k yet, by sortedness, at least the old
        // count, which is k - 1
        assert forall|q: int| c + 1 <= q <= l implies #[trigger] m1.freq[q] == k - 1 by {
            assert(m1.freq[q] < k);
            lemma_sorted_le(m, c, q);
        }
        let m2 = LzModel { freq: m1.freq.update(c, m1.freq[l]).update(l, k), ..m1 };
        assert forall|i: int| 0 <= i < 626 implies #[trigger] m2.freq[i] <= m2.freq[i + 1] by {
            if i != c && i + 1 != c && i != l && i + 1 != l {
                assert(m.freq[i] <= m.freq[i + 1]);
            }
            if i + 1 == l && f >= 627 {
                assert(l == 626);
            }
        }
        assert(sorted_freq(upd_step(m, c).0));
        assert(freq_below(upd_step(m, c).0, bound + 1));
    } else {
        assert forall|i: int| 0 <= i < 626 implies #[trigger] m1.freq[i] <= m1.freq[i + 1] by {
            if i != c && i + 1 != c {
                assert(m.freq[i] <= m.freq[i + 1]);
            }
        }
    }
}

/// In a sorted table, counts grow with the position.
proof fn lemma_sorted_le(m: LzModel, a: int, b: int)
    requires
        m.wf(),
        sorted_freq(m),
        0 <= a <= b <= 626,
    ensures
        m.freq[a] <= m.freq[b],
    decreases b - a,
{
    if a < b {
        lemma_sorted_le(m, a + 1, b);
    }
}

/// The whole walk keeps the counts sorted, raising each by at most one
/// per step.
proof fn lemma_walk_sorted(m: LzModel, c: int, fuel: nat, bound: int)
    requires
        m.wf(),
        sorted_freq(m),
        freq_below(m, bound),
        bound + fuel < 0xffff,
        0 <= c < 627,
    ensures
        upd_walk(m, c, fuel).wf(),
        sorted_freq(upd_walk(m, c, fuel)),
        freq_below(upd_walk(m, c, fuel), bound + fuel),
    decreases fuel,
{
    if fuel > 0 {
        lemma_step_sorted(m, c, bound);
        let sc = upd_step(m, c);
        let c2 = sc.0.parents[sc.1] as int;
        if c2 != 0 {
            lemma_walk_sorted(sc.0, c2, (fuel - 1) as nat, bound + 1);
        }
    }
}

/// Sibling ordering after `update`: when the model is well-formed, its
/// counts are sorted and at most `MAX_FREQ`, and the update does not
/// trigger a rebuild, then after the update every internal position
/// `j` at or above `N_CHAR` still satisfies
/// `frequency[j - 1] <= frequency[j]` (indeed the whole table stays
/// sorted).
pub proof fn lemma_update_sibling_order(m: LzModel, sym: u16)
    requires
        m.wf(),
        sorted_freq(m),
        freq_below(m, 0x8000),
        m.freq[626] != 0x8000,
        sym < 314,
    ensures
        forall|j: int|
            314 <= j < 627 ==> #[trigger] spec_update(m, sym).freq[j - 1] <= spec_update(
                m,
                sym,
            ).freq[j],
{
    let c0 = m.parents[sym + 627] as int;
    lemma_walk_sorted(m, c0, 627, 0x8000);
    let mf = spec_update(m, sym);
    assert forall|j: int| 314 <= j < 627 implies #[trigger] mf.freq[j - 1] <= mf.freq[j] by {
        assert(mf.freq[j - 1] <= mf.freq[(j - 1) + 1]);
    }
}

/// Every count is at least one.
pub open spec fn freq_positive(m: LzModel) -> bool {
    forall|i: int| 0 <= i < 627 ==> #[trigger] m.freq[i] >= 1
}

/// One walk step never drives a count to zero: the bumped count grows,
/// and a swap only moves counts around.
proof fn lemma_step_positive(m: LzModel, c: int, bound: int)
    requires
        m.wf(),
        freq_positive(m),
        freq_below(m, bound),
        bound + 1 < 0xffff,
        0 <= c < 627,
    ensures
        freq_positive(upd_step(m, c).0),
{
    let k = add16(m.freq[c], 1);
    assert(k == m.freq[c] + 1);
    let m1 = LzModel { freq: m.freq.update(c, k), ..m };
    if k > m1.freq[c + 1] {
        assert(c + 1 < 627) by {
            if c + 1 == 627 {
                assert(m1.freq[627] == 0xffff);
            }
        }
        lemma_find_l_facts(m1.freq, k, c + 2);
        let f = find_l(m1.freq, k, c + 2);
        let l = f - 1;
        assert(l <= 626) by {
            if f > 627 {
                assert(m1.freq[627] < k);
            }
        }
        assert(m1.freq[l] >= 1);
    }
}

/// The whole walk keeps every count positive.
proof fn lemma_walk_positive(m: LzModel, c: int, fuel: nat, bound: int)
    requires
        m.wf(),
        freq_positive(m),
        freq_below(m, bound),
        bound + fuel < 0xffff,
        0 <= c < 627,
    ensures
        freq_positive(upd_walk(m, c, fuel)),
    decreases fuel,
{
    if fuel > 0 {
        lemma_step_positive(m, c, bound);
        lemma_step_below(m, c, bound);
        let sc = upd_step(m, c);
        let c2 = sc.0.parents[sc.1] as int;
        if c2 != 0 {
            lemma_walk_positive(sc.0, c2, (fuel - 1) as nat, bound + 1);
        }
    }
}

/// One walk step raises no count by more than one and stays inside the
/// table.
proof fn lemma_step_below(m: LzModel, c: int, bound: int)
    requires
        m.wf(),
        freq_below(m, bound),
        bound + 1 < 0xffff,
        0 <= c < 627,
    ensures
        upd_step(m, c).0.wf(),
        freq_below(upd_step(m, c).0, bound + 1),
        0 <= upd_step(m, c).1 < 627,
{
    let k = add16(m.freq[c], 1);
    assert(k == m.freq[c] + 1);
    let m1 = LzModel { freq: m.freq.update(c, k), ..m };
    if k > m1.freq[c + 1] {
        assert(c + 1 < 627) by {
            if c + 1 == 627 {
                assert(m1.freq[627] == 0xffff);
            }
        }
        lemma_find_l_facts(m1.freq, k, c + 2);
        let f = find_l(m1.freq, k, c + 2);
        assert(f - 1 <= 626) by {
            if f > 627 {
                assert(m1.freq[627] < k);
            }
        }
    }
}

/// No symbol's count dies during an update: when the model is
/// well-formed, its counts are positive and at most `MAX_FREQ`, and the
/// update does not trigger a rebuild, every count is still at least one
/// afterwards — in particular every leaf keeps a positive count.
pub proof fn lemma_update_keeps_counts_positive(m: LzModel, sym: u16)
    requires
        m.wf(),
        freq_positive(m),
        freq_below(m, 0x8000),
        m.freq[626] != 0x8000,
        sym < 314,
    ensures
        freq_positive(spec_update(m, sym)),
{
    let c0 = m.parents[sym + 627] as int;
    lemma_walk_positive(m, c0, 627, 0x8000);
}

/// Ghost mirror of the bit reader: a 16-bit window kept in the high
/// half of `buf`'s low 16 bits, `pos` valid bits, and the bytes not yet
/// pulled in.
#[verifier::ext_equal]
pub ghost struct BitReadModel {
    pub buf: u32,
    pub pos: u8,
    pub rest: Seq<u8>,
}

/// Refill the window while at most 8 valid bits remain and input is
/// left: each byte lands just under the valid bits.
pub open spec fn spec_fill(m: BitReadModel) -> BitReadModel
    decreases m.rest.len(),
{
    if m.pos > 8 || m.rest.len() == 0 {
        m
    } else {
        spec_fill(
            BitReadModel {
                buf: m.buf | ((m.rest[0] as u32) << ((8 - m.pos) as u32)),
                pos: (m.pos + 8) as u8,
                rest: m.rest.skip(1),
            },
        )
    }
}

/// Take the highest window bit, or nothing when the reader is dry.
pub open spec fn spec_get_bit(m: BitReadModel) -> (Option<u8>, BitReadModel) {
    let m1 = spec_fill(m);
    if m1.pos == 0 {
        (None, m1)
    } else {
        (
            Some((((m1.buf & 0x8000) >> 15) as u8)),
            BitReadModel { buf: m1.buf << 1, pos: (m1.pos - 1) as u8, rest: m1.rest },
        )
    }
}

/// Take the highest eight window bits, or nothing when fewer remain.
pub open spec fn spec_get_byte(m: BitReadModel) -> (Option<u8>, BitReadModel) {
    let m1 = spec_fill(m);
    if m1.pos < 8 {
        (None, m1)
    } else {
        (
            Some((((m1.buf & 0xff00) >> 8) as u8)),
            BitReadModel { buf: m1.buf << 8, pos: (m1.pos - 8) as u8, rest: m1.rest },
        )
    }
}

/// Most-significant-bit-first bit reader over a byte buffer.
#[derive(Debug)]
pub struct Biterator {
    bit_buffer: u32,
    bit_pos: u8,
    input: Vec<u8>,
    consumed: usize,
}

impl View for Biterator {
    type V = BitReadModel;

    closed spec fn view(&self) -> BitReadModel {
        BitReadModel {
            buf: self.bit_buffer,
            pos: self.bit_pos,
            rest: self.input@.skip(self.consumed as int),
        }
    }
}

impl Biterator {
    pub closed spec fn wf(&self) -> bool {
        self@.pos <= 16 && self.consumed <= self.input@.len()
    }

    pub fn new(input: Vec<u8>) -> (r: Biterator)
        ensures
            r@ == (BitReadModel { buf: 0, pos: 0, rest: input@ }),
            r.wf(),
    {
        let r = Biterator { bit_buffer: 0, bit_pos: 0, input, consumed: 0 };
        proof {
            assert(r@.rest =~= r.input@);
        }
        r
    }

    /// Pull input bytes into the window while eight or fewer valid bits
    /// remain.
    pub fn fill_buffer(&mut self)
        requires
            old(self).wf(),
        ensures
            final(self)@ == spec_fill(old(self)@),
            final(self).wf(),
            final(self)@.pos > 8 || final(self)@.rest.len() == 0,
    {
        while self.bit_pos <= 8 && self.consumed < self.input.len()
            invariant
                self.bit_pos <= 16,
                self.consumed <= self.input.len(),
                spec_fill(self@) == spec_fill(old(self)@),
            decreases self.input.len() - self.consumed,
        {
            let b = self.input[self.consumed];
            let ghost mpre = self@;
            self.bit_buffer = self.bit_buffer | ((b as u32) << ((8 - self.bit_pos) as u32));
            self.bit_pos = self.bit_pos + 8;
            self.consumed = self.consumed + 1;
            proof {
                assert(mpre.rest[0] == b);
                assert(self@.rest =~= mpre.rest.skip(1));
            }
        }
    }

    /// The next bit of the input stream, shifted out of the high end of
    /// the window; nothing once the input is exhausted.
    pub fn get_bit(&mut self) -> (r: Option<u8>)
        requires
            old(self).wf(),
        ensures
            r == spec_get_bit(old(self)@).0,
            final(self)@ == spec_get_bit(old(self)@).1,
            final(self).wf(),
    {
        self.fill_buffer();
        if self.bit_pos == 0 {
            return None;
        }
        let i = self.bit_buffer;
        self.bit_buffer = self.bit_buffer << 1;
        self.bit_pos = self.bit_pos - 1;
        Some(((i & 0x8000) >> 15) as u8)
    }

    /// The next eight bits of the input stream as one byte; nothing
    /// when fewer than eight remain.
    pub fn get_byte(&mut self) -> (r: Option<u8>)
        requires
            old(self).wf(),
        ensures
            r == spec_get_byte(old(self)@).0,
            final(self)@ == spec_get_byte(old(self)@).1,
            final(self).wf(),
    {
        self.fill_buffer();
        if self.bit_pos < 8 {
            return None;
        }
        let i = self.bit_buffer;
        self.bit_buffer = self.bit_buffer << 8;
        self.bit_pos = self.bit_pos - 8;
        Some(((i & 0xff00) >> 8) as u8)
    }
}

/// Ghost mirror of the bit writer: emitted bytes, plus a 16-bit
/// accumulator holding `pos` pending bits at its high end.
#[verifier::ext_equal]
pub ghost struct BitWriteModel {
    pub buf: u16,
    pub pos: u8,
    pub out: Seq<u8>,
}

/// Write the top `l` bits of `c` (c's remaining bits must be zero):
/// accumulate, and emit one byte, or two, once eight or more bits are
/// pending.
pub open spec fn spec_put_code(m: BitWriteModel, l: u8, c: u16) -> BitWriteModel {
    let b1 = m.buf | (c >> (m.pos as u16));
    let p1 = (m.pos + l) as u8;
    if p1 >= 8 {
        let out1 = m.out.push((b1 >> 8) as u8);
        let p2 = (p1 - 8) as u8;
        if p2 >= 8 {
            BitWriteModel {
                buf: c << ((l - p2 + 8) as u16 & 0xf),
                pos: (p2 - 8) as u8,
                out: out1.push(b1 as u8),
            }
        } else {
            BitWriteModel { buf: b1 << 8, pos: p2, out: out1 }
        }
    } else {
        BitWriteModel { buf: b1, pos: p1, out: m.out }
    }
}

/// Flush: one more byte holding the pending bits, if any are left.
pub open spec fn spec_bits_finish(m: BitWriteModel) -> Seq<u8> {
    if m.pos > 0 {
        m.out.push((m.buf >> 8) as u8)
    } else {
        m.out
    }
}

/// Most-significant-bit-first bit writer into a byte buffer.
#[derive(Debug)]
pub struct Bitbuffer {
    bit_buffer: u16,
    bit_pos: u8,
    output: Vec<u8>,
}

impl View for Bitbuffer {
    type V = BitWriteModel;

    closed spec fn view(&self) -> BitWriteModel {
        BitWriteModel { buf: self.bit_buffer, pos: self.bit_pos, out: self.output@ }
    }
}

impl Bitbuffer {
    pub open spec fn wf(&self) -> bool {
        self@.pos < 8
    }

    pub fn new() -> (r: Bitbuffer)
        ensures
            r@ == (BitWriteModel { buf: 0, pos: 0, out: Seq::empty() }),
            r.wf(),
    {
        let r = Bitbuffer { bit_buffer: 0, bit_pos: 0, output: Vec::new() };
        proof {
            assert(r@.out =~= Seq::<u8>::empty());
        }
        r
    }

    /// Append the top `l` bits of the left-aligned code `c`.
    pub fn put_code(&mut self, l: u8, c: u16)
        requires
            old(self).wf(),
            l <= 16,
        ensures
            final(self)@ == spec_put_code(old(self)@, l, c),
            final(self).wf(),
    {
        self.bit_buffer = self.bit_buffer | (c >> (self.bit_pos as u16));
        self.bit_pos = self.bit_pos + l;
        if self.bit_pos >= 8 {
            self.output.push(#[verifier::truncate] ((self.bit_buffer >> 8) as u8));
            self.bit_pos = self.bit_pos - 8;
            if self.bit_pos >= 8 {
                self.output.push(#[verifier::truncate] (self.bit_buffer as u8));
                self.bit_pos = self.bit_pos - 8;
                let raw: u16 = (l - self.bit_pos) as u16;
                let sh: u16 = raw & 0xf;
                proof {
                    assert(raw & 0xf < 16) by (bit_vector);
                }
                self.bit_buffer = c << sh;
            } else {
                self.bit_buffer = self.bit_buffer << 8;
            }
        }
    }

    /// Flush the pending bits and hand the output buffer over.
    pub fn finish(self) -> (r: Vec<u8>)
        ensures
            r@ == spec_bits_finish(self@),
    {
        let Bitbuffer { bit_buffer, bit_pos, mut output } = self;
        if bit_pos > 0 {
            output.push((bit_buffer >> 8) as u8);
        }
        output
    }
}

/// Bits still available to the reader.
pub open spec fn bit_avail(m: BitReadModel) -> int {
    m.pos + 8 * m.rest.len()
}

/// Refilling moves bytes into the window without creating or losing
/// bits.
pub proof fn lemma_fill_avail(m: BitReadModel)
    ensures
        bit_avail(spec_fill(m)) == bit_avail(m),
    decreases m.rest.len(),
{
    if m.pos > 8 || m.rest.len() == 0 {
    } else {
        lemma_fill_avail(
            BitReadModel {
                buf: m.buf | ((m.rest[0] as u32) << ((8 - m.pos) as u32)),
                pos: (m.pos + 8) as u8,
                rest: m.rest.skip(1),
            },
        );
    }
}

/// Taking a bit consumes exactly one available bit; a refusal leaves
/// the count unchanged.
pub proof fn lemma_get_bit_avail(m: BitReadModel)
    ensures
        spec_get_bit(m).0 is Some ==> bit_avail(spec_get_bit(m).1) == bit_avail(m) - 1,
        spec_get_bit(m).0 is None ==> bit_avail(spec_get_bit(m).1) == bit_avail(m),
{
    lemma_fill_avail(m);
}

/// Bucket size table for match positions: how many bits encode the
/// upper six position bits, keyed by the first byte read.
pub open spec fn spec_decode_len(b: u8) -> u8 {
    if b < 0x20 {
        3
    } else if b < 0x50 {
        4
    } else if b < 0x90 {
        5
    } else if b < 0xc0 {
        6
    } else if b < 0xf0 {
        7
    } else {
        8
    }
}

/// Bucket table for match positions: the upper six bits of the
/// position, keyed by the first byte read.
pub open spec fn spec_decode_code(b: u8) -> u8 {
    if b < 0x20 {
        (b / 32) as u8
    } else if b < 0x50 {
        (1 + (b - 0x20) / 16) as u8
    } else if b < 0x90 {
        (4 + (b - 0x50) / 8) as u8
    } else if b < 0xc0 {
        (12 + (b - 0x90) / 4) as u8
    } else if b < 0xf0 {
        (24 + (b - 0xc0) / 2) as u8
    } else {
        (48 + (b - 0xf0)) as u8
    }
}

fn decode_len_of(b: u8) -> (r: u8)
    ensures
        r == spec_decode_len(b),
{
    if b < 0x20 {
        3
    } else if b < 0x50 {
        4
    } else if b < 0x90 {
        5
    } else if b < 0xc0 {
        6
    } else if b < 0xf0 {
        7
    } else {
        8
    }
}

fn decode_code_of(b: u8) -> (r: u8)
    ensures
        r == spec_decode_code(b),
        r < 64,
{
    if b < 0x20 {
        b / 32
    } else if b < 0x50 {
        1 + (b - 0x20) / 16
    } else if b < 0x90 {
        4 + (b - 0x50) / 8
    } else if b < 0xc0 {
        12 + (b - 0x90) / 4
    } else if b < 0xf0 {
        24 + (b - 0xc0) / 2
    } else {
        48 + (b - 0xf0)
    }
}

/// The Huffman walk of the decoder: descend from the root's child,
/// steering by one input bit per level, until a leaf slot (at or above
/// `T`) is reached. The fuel is one more than the bits available, which
/// the walk can never use up.
pub open spec fn dec_walk(children: Seq<u16>, b: BitReadModel, c: int, fuel: nat) -> (
    Option<int>,
    BitReadModel,
)
    decreases fuel,
{
    if c >= 627 {
        (Some(c), b)
    } else if fuel == 0 {
        (None, b)
    } else {
        let gb = spec_get_bit(b);
        match gb.0 {
            None => (None, gb.1),
            Some(v) => {
                let c1 = c + v;
                if c1 >= 627 {
                    (None, gb.1)
                } else {
                    dec_walk(children, gb.1, children[c1] as int, (fuel - 1) as nat)
                }
            },
        }
    }
}

/// Decode one symbol: walk the tree, then update the model with the
/// symbol found.
pub open spec fn spec_decode_char(m: LzModel, b: BitReadModel) -> (
    Option<u16>,
    LzModel,
    BitReadModel,
) {
    let w = dec_walk(m.children, b, m.children[626] as int, (bit_avail(b) + 1) as nat);
    match w.0 {
        None => (None, m, w.1),
        Some(c) => {
            let sym = (c - 627) as u16;
            (Some(sym), spec_update(m, sym), w.1)
        },
    }
}

/// Gather `j` further position bits after the table byte.
pub open spec fn pos_bits(b: BitReadModel, i: u16, j: int) -> (Option<u16>, BitReadModel)
    decreases j,
{
    if j <= 0 {
        (Some(i), b)
    } else {
        let gb = spec_get_bit(b);
        match gb.0 {
            None => (None, gb.1),
            Some(v) => pos_bits(gb.1, ((i * 2 + v) % 0x10000) as u16, j - 1),
        }
    }
}

/// Decode an 11-bit match offset: one byte indexes the bucket tables,
/// then `len - 2` further bits complete the low six bits.
pub open spec fn spec_decode_position(b: BitReadModel) -> (Option<u16>, BitReadModel) {
    let gb = spec_get_byte(b);
    match gb.0 {
        None => (None, gb.1),
        Some(by) => {
            let c = (spec_decode_code(by) as u16) << 6;
            let j = spec_decode_len(by) - 2;
            let lp = pos_bits(gb.1, by as u16, j as int);
            match lp.0 {
                None => (None, lp.1),
                Some(i) => (Some(c | (i & 0x3f)), lp.1),
            }
        },
    }
}

/// Copy a match out of the ring: each byte is appended to the output
/// and re-enters the ring, until the match ends or the requested length
/// is reached.
pub open spec fn spec_copy(lz: LzModel, acc: Seq<u8>, ii: u16, k: int, j: int, len: int) -> (
    LzModel,
    Seq<u8>,
)
    decreases j - k,
{
    if k >= j || acc.len() >= len {
        (lz, acc)
    } else {
        let ch = lz.text[(((ii + k) as u16) & 2047) as int];
        spec_copy(spec_update_text(lz, ch), acc.push(ch), ii, k + 1, j, len)
    }
}

/// The decode loop: symbols below 256 are literals; higher symbols are
/// matches of length `sym - 255 + THRESHOLD` copied from the decoded
/// offset back in the ring. `None` means the input ran out mid-symbol
/// or mid-position. The fuel only bounds the recursion; with the fuel
/// the executable decoder supplies (one per output byte) it never runs
/// out.
pub open spec fn spec_decode_loop(
    lz: LzModel,
    b: BitReadModel,
    acc: Seq<u8>,
    len: int,
    fuel: nat,
) -> (Option<Seq<u8>>, LzModel, BitReadModel)
    decreases fuel,
{
    if acc.len() >= len {
        (Some(acc), lz, b)
    } else if fuel == 0 {
        (None, lz, b)
    } else {
        let dc = spec_decode_char(lz, b);
        match dc.0 {
            None => (None, dc.1, dc.2),
            Some(sym) => {
                if sym < 256 {
                    spec_decode_loop(
                        spec_update_text(dc.1, sym as u8),
                        dc.2,
                        acc.push(sym as u8),
                        len,
                        (fuel - 1) as nat,
                    )
                } else {
                    let dp = spec_decode_position(dc.2);
                    match dp.0 {
                        None => (None, dc.1, dp.1),
                        Some(pos) => {
                            let ii = (((dc.1.r + 8192 - pos - 1) as u16) & 2047) as u16;
                            let j = sym - 253;
                            let cp = spec_copy(dc.1, acc, ii, 0, j as int, len);
                            spec_decode_loop(cp.0, dp.1, cp.1, len, (fuel - 1) as nat)
                        },
                    }
                }
            },
        }
    }
}

/// What decoding `len` bytes from `input` yields.
pub open spec fn spec_decode(lz: LzModel, b: BitReadModel, len: int) -> (
    Option<Seq<u8>>,
    LzModel,
    BitReadModel,
) {
    spec_decode_loop(lz, b, Seq::empty(), len, len as nat)
}

/// Decoding failed because the compressed input ran out mid-symbol or
/// mid-position.
#[derive(Clone, Copy, Debug, PartialEq, Eq, Structural)]
pub struct UnexpectedEof;

/// Ghost mirror of the decoder: the shared model plus the bit reader.
#[verifier::ext_equal]
pub ghost struct DecModel {
    pub lz: LzModel,
    pub bits: BitReadModel,
}

/// The LZHUF decoder.
#[derive(Debug)]
pub struct Decoder {
    state: LzHufState,
    stream: Biterator,
}

impl View for Decoder {
    type V = DecModel;

    closed spec fn view(&self) -> DecModel {
        DecModel { lz: self.state@, bits: self.stream@ }
    }
}

impl Decoder {
    pub closed spec fn wf(&self) -> bool {
        self@.lz.wf() && self.stream.wf()
    }

    /// A decoder over `input`, with a fresh model.
    pub fn new(input: Vec<u8>) -> (r: Decoder)
        ensures
            r@.lz == spec_init(),
            r@.bits == (BitReadModel { buf: 0, pos: 0, rest: input@ }),
            r.wf(),
    {
        Decoder { state: LzHufState::new(), stream: Biterator::new(input) }
    }

    /// Decode one symbol and update the model.
    fn decode_char(&mut self) -> (r: Option<u16>)
        requires
            old(self).wf(),
        ensures
            r == spec_decode_char(old(self)@.lz, old(self)@.bits).0,
            final(self)@.lz == spec_decode_char(old(self)@.lz, old(self)@.bits).1,
            final(self)@.bits == spec_decode_char(old(self)@.lz, old(self)@.bits).2,
            final(self).wf(),
            r is Some ==> r->0 < 314,
    {
        let ghost lz0 = self@.lz;
        let ghost b0 = self@.bits;
        let ghost total = dec_walk(lz0.children, b0, lz0.children[626] as int, (bit_avail(b0)
            + 1) as nat);
        let mut c: u16 = self.state.children[626];
        while c < 627
            invariant
                lz0 == old(self)@.lz,
                b0 == old(self)@.bits,
                total == dec_walk(lz0.children, b0, lz0.children[626] as int, (bit_avail(b0)
                    + 1) as nat),
                self@.lz == lz0,
                lz0.wf(),
                self.stream.wf(),
                c < 941,
                dec_walk(lz0.children, self@.bits, c as int, (bit_avail(self@.bits) + 1) as nat)
                    == total,
            decreases bit_avail(self@.bits),
        {
            proof {
                lemma_get_bit_avail(self@.bits);
            }
            match self.stream.get_bit() {
                None => {
                    return None;
                },
                Some(v) => {
                    let c1 = c + v as u16;
                    if c1 >= 627 {
                        return None;
                    }
                    c = self.state.children[c1 as usize];
                },
            }
        }
        let sym = c - 627;
        self.state.update(sym);
        Some(sym)
    }

    /// Decode one match offset.
    fn decode_position(&mut self) -> (r: Option<u16>)
        requires
            old(self).wf(),
        ensures
            r == spec_decode_position(old(self)@.bits).0,
            final(self)@.bits == spec_decode_position(old(self)@.bits).1,
            final(self)@.lz == old(self)@.lz,
            final(self).wf(),
            match r {
                Some(p) => p < 4096,
                None => true,
            },
    {
        let by = match self.stream.get_byte() {
            None => {
                return None;
            },
            Some(by) => by,
        };
        let cd = decode_code_of(by);
        let c: u16 = (cd as u16) << 6;
        let jtotal: u8 = decode_len_of(by) - 2;
        let ghost bstart = self@.bits;
        let mut i: u16 = by as u16;
        let mut j: u8 = jtotal;
        while j > 0
            invariant
                old(self).wf(),
                self@.lz == old(self)@.lz,
                self.stream.wf(),
                spec_get_byte(old(self)@.bits).0 == Some(by),
                spec_get_byte(old(self)@.bits).1 == bstart,
                cd == spec_decode_code(by),
                c == (cd as u16) << 6,
                jtotal == spec_decode_len(by) - 2,
                pos_bits(self@.bits, i, j as int) == pos_bits(bstart, by as u16, jtotal as int),
            decreases j,
        {
            match self.stream.get_bit() {
                None => {
                    return None;
                },
                Some(v) => {
                    i = ((i as u32 * 2 + v as u32) % 0x10000) as u16;
                },
            }
            j = j - 1;
        }
        let p: u16 = c | (i & 0x3f);
        proof {
            assert(p < 4096) by (bit_vector)
                requires
                    p == c | (i & 0x3f),
                    c == (cd as u16) << 6,
                    cd < 64,
            ;
        }
        Some(p)
    }

    /// Decode exactly `len` bytes of plain text. Fails with
    /// `UnexpectedEof` when the compressed input is exhausted
    /// mid-symbol or mid-position.
    pub fn decode(&mut self, len: usize) -> (r: Result<Vec<u8>, UnexpectedEof>)
        requires
            old(self).wf(),
        ensures
            match r {
                Ok(v) => spec_decode(old(self)@.lz, old(self)@.bits, len as int).0 == Some(v@),
                Err(_) => spec_decode(old(self)@.lz, old(self)@.bits, len as int).0 is None,
            },
            final(self)@.lz == spec_decode(old(self)@.lz, old(self)@.bits, len as int).1,
            final(self)@.bits == spec_decode(old(self)@.lz, old(self)@.bits, len as int).2,
            final(self).wf(),
    {
        let ghost total = spec_decode(old(self)@.lz, old(self)@.bits, len as int);
        let mut out: Vec<u8> = Vec::new();
        let ghost mut fuel: nat = len as nat;
        while out.len() < len
            invariant
                total == spec_decode(old(self)@.lz, old(self)@.bits, len as int),
                self.wf(),
                out@.len() <= len,
                fuel >= len - out@.len(),
                spec_decode_loop(self@.lz, self@.bits, out@, len as int, fuel) == total,
            decreases len - out@.len(),
        {
            let ghost lzpre = self@.lz;
            let ghost bpre = self@.bits;
            let c = match self.decode_char() {
                None => {
                    return Err(UnexpectedEof);
                },
                Some(c) => c,
            };
            if c < 256 {
                out.push(c as u8);
                self.state.update_text_buffer(c as u8);
                proof {
                    fuel = (fuel - 1) as nat;
                }
            } else {
                let pos = match self.decode_position() {
                    None => {
                        return Err(UnexpectedEof);
                    },
                    Some(p) => p,
                };
                let raw: u16 = ((self.state.r as u32 + 8192 - pos as u32 - 1) % 0x10000) as u16;
                let ii: u16 = raw & 2047;
                let j: u16 = c - 253;
                proof {
                    assert(raw & 2047 < 2048) by (bit_vector);
                }
                let ghost lzcs = self@.lz;
                let ghost bcur = self@.bits;
                let ghost accs = out@;
                let mut k: u16 = 0;
                while k < j && out.len() < len
                    invariant
                        self@.lz.wf(),
                        self.stream.wf(),
                        self@.bits == bcur,
                        k <= j,
                        j <= 60,
                        ii < 2048,
                        out@.len() <= len,
                        out@.len() == accs.len() + k,
                        spec_copy(self@.lz, out@, ii, k as int, j as int, len as int) == spec_copy(
                            lzcs,
                            accs,
                            ii,
                            0,
                            j as int,
                            len as int,
                        ),
                    decreases j - k,
                {
                    let s: u16 = ii + k;
                    let idx: u16 = s & 2047;
                    proof {
                        assert(s & 2047 < 2048) by (bit_vector);
                    }
                    let ch = self.state.text_buffer[idx as usize];
                    out.push(ch);
                    self.state.update_text_buffer(ch);
                    k = k + 1;
                }
                proof {
                    fuel = (fuel - 1) as nat;
                }
            }
        }
        Ok(out)
    }
}

/// Ghost mirror of the encoder: the shared model, the current match,
/// the bit writer, and the three link arrays of the search tree over
/// ring positions (`NIL` is the null link; positions `N+1..N+256` are
/// the per-first-byte root buckets of the right-link array).
#[verifier::ext_equal]
pub ghost struct EncModel {
    pub lz: LzModel,
    pub match_length: u16,
    pub match_position: u16,
    pub wout: BitWriteModel,
    pub lson: Seq<u16>,
    pub rson: Seq<u16>,
    pub dad: Seq<u16>,
}

impl EncModel {
    pub open spec fn wf(self) -> bool {
        &&& self.lz.wf()
        &&& self.wout.pos < 8
        &&& self.lson.len() == 2049
        &&& self.rson.len() == 2305
        &&& self.dad.len() == 2049
        &&& (forall|i: int| 0 <= i < 2049 ==> #[trigger] self.lson[i] <= 2048)
        &&& (forall|i: int| 0 <= i < 2305 ==> #[trigger] self.rson[i] <= 2048)
        &&& (forall|i: int| 0 <= i < 2049 ==> #[trigger] self.dad[i] <= 2304)
    }
}

/// Compare the ring keys at `r` and `p` from offset `i` on: the first
/// differing offset and the sign of the difference (0 when the keys
/// agree through the whole window).
pub open spec fn ins_cmp(text: Seq<u8>, r: int, p: int, i: int) -> (int, int)
    decreases 60 - i,
{
    if i >= 60 {
        (60, 0)
    } else {
        let c = text[r + i] - text[p + i];
        if c != 0 {
            (i, c)
        } else {
            ins_cmp(text, r, p, i + 1)
        }
    }
}

/// The match position the encoder records: the ring distance from `r`
/// back to `p`, less one, in the machine's wrapping arithmetic.
pub open spec fn mpos(r: u16, p: int) -> u16 {
    (((((r + 2048 - p) as u16) & 2047) + 0x10000 - 1) % 0x10000) as u16
}

/// Record a match of length `i` at node `p`, preferring longer matches
/// and, among equal lengths, the smallest position; `true` means the
/// window-long match that ends the search.
pub open spec fn ins_match(e: EncModel, r: u16, p: int, i: int) -> (EncModel, bool) {
    if i > 2 {
        if i > e.match_length {
            let e1 = EncModel { match_position: mpos(r, p), match_length: i as u16, ..e };
            if i >= 60 {
                (e1, true)
            } else {
                let c = mpos(r, p);
                (
                    if c < e1.match_position {
                        EncModel { match_position: c, ..e1 }
                    } else {
                        e1
                    },
                    false,
                )
            }
        } else if i == e.match_length {
            let c = mpos(r, p);
            (
                if c < e.match_position {
                    EncModel { match_position: c, ..e }
                } else {
                    e
                },
                false,
            )
        } else {
            (e, false)
        }
    } else {
        (e, false)
    }
}

/// Replace tree node `p` by `r` in place (same links, same parent).
pub open spec fn ins_replace(e: EncModel, r: u16, p: int) -> EncModel {
    let e1 = EncModel {
        dad: e.dad.update(r as int, e.dad[p]),
        lson: e.lson.update(r as int, e.lson[p]),
        rson: e.rson.update(r as int, e.rson[p]),
        ..e
    };
    let e2 = EncModel {
        dad: e1.dad.update(e1.lson[p] as int, r).update(e1.rson[p] as int, r),
        ..e1
    };
    let dp = e2.dad[p] as int;
    let e3 = if e2.rson[dp] == p {
        EncModel { rson: e2.rson.update(dp, r), ..e2 }
    } else if dp <= 2048 {
        EncModel { lson: e2.lson.update(dp, r), ..e2 }
    } else {
        e2
    };
    EncModel { dad: e3.dad.update(p, 2048), ..e3 }
}

/// The search-tree descent: go right on greater-or-equal, left on
/// less, comparing the window at each visited node and recording
/// matches; attach `r` as a leaf at the first null link, or replace the
/// node whose key matches the whole window. The fuel bounds the
/// descent by the tree size, which a consistent tree never reaches.
pub open spec fn ins_walk(e: EncModel, r: u16, p: int, cmp: int, fuel: nat) -> EncModel
    decreases fuel, 0int,
{
    if fuel == 0 {
        e
    } else if cmp >= 0 && e.rson[p] != 2048 {
        ins_walk_at(e, r, e.rson[p] as int, (fuel - 1) as nat)
    } else if cmp >= 0 {
        EncModel { rson: e.rson.update(p, r), dad: e.dad.update(r as int, p as u16), ..e }
    } else if e.lson[p] != 2048 {
        ins_walk_at(e, r, e.lson[p] as int, (fuel - 1) as nat)
    } else {
        EncModel { lson: e.lson.update(p, r), dad: e.dad.update(r as int, p as u16), ..e }
    }
}

/// One visit during the descent: compare, record the match, and either
/// finish by replacement or keep descending.
pub open spec fn ins_walk_at(e: EncModel, r: u16, p: int, fuel: nat) -> EncModel
    decreases fuel, 1int,
{
    let ic = ins_cmp(e.lz.text, r as int, p, 1);
    let em = ins_match(e, r, p, ic.0);
    if em.1 {
        ins_replace(em.0, r, p)
    } else {
        ins_walk(em.0, r, p, ic.1, fuel)
    }
}

/// A full `insert_node(r)`: fresh leaf links, no match yet, then the
/// descent from the bucket of the first key byte.
pub open spec fn spec_insert_node(e: EncModel, r: u16) -> EncModel {
    let e0 = EncModel {
        lson: e.lson.update(r as int, 2048),
        rson: e.rson.update(r as int, 2048),
        match_length: 0,
        ..e
    };
    ins_walk(e0, r, 2049 + e0.lz.text[r as int], 1, 2305)
}

/// The rightmost node under `q`, by right links.
pub open spec fn del_desc(rson: Seq<u16>, q: int, fuel: nat) -> int
    decreases fuel,
{
    if fuel == 0 {
        q
    } else {
        let q2 = rson[q] as int;
        if rson[q2] == 2048 {
            q2
        } else {
            del_desc(rson, q2, (fuel - 1) as nat)
        }
    }
}

/// A full `delete_node(p)`: splice `p` out of the search tree,
/// promoting a child, or the rightmost node of the left subtree when
/// both children exist. Nothing happens when `p` is not in the tree.
pub open spec fn spec_delete_node(e: EncModel, p: u16) -> EncModel {
    if e.dad[p as int] == 2048 {
        e
    } else {
        let e1q: (EncModel, int) = if e.rson[p as int] == 2048 {
            (e, e.lson[p as int] as int)
        } else if e.lson[p as int] == 2048 {
            (e, e.rson[p as int] as int)
        } else {
            let q0 = e.lson[p as int] as int;
            let eq: (EncModel, int) = if e.rson[q0] != 2048 {
                let q = del_desc(e.rson, q0, 2049);
                let ea = EncModel {
                    rson: e.rson.update(e.dad[q] as int, e.lson[q]),
                    ..e
                };
                let eb = EncModel { dad: ea.dad.update(ea.lson[q] as int, ea.dad[q]), ..ea };
                let ec = EncModel { lson: eb.lson.update(q, eb.lson[p as int]), ..eb };
                let ed = EncModel { dad: ec.dad.update(ec.lson[p as int] as int, q as u16), ..ec };
                (ed, q)
            } else {
                (e, q0)
            };
            let e2 = EncModel { rson: eq.0.rson.update(eq.1, eq.0.rson[p as int]), ..eq.0 };
            (EncModel { dad: e2.dad.update(e2.rson[p as int] as int, eq.1 as u16), ..e2 }, eq.1)
        };
        let e3 = e1q.0;
        let q = e1q.1;
        let e4 = EncModel { dad: e3.dad.update(q, e3.dad[p as int]), ..e3 };
        let dp = e4.dad[p as int] as int;
        let e5 = if e4.rson[dp] == p {
            EncModel { rson: e4.rson.update(dp, q as u16), ..e4 }
        } else if dp <= 2048 {
            EncModel { lson: e4.lson.update(dp, q as u16), ..e4 }
        } else {
            e4
        };
        EncModel { dad: e5.dad.update(p as int, 2048), ..e5 }
    }
}

/// Collect the Huffman code of `c`'s leaf, walking leaf to root: each
/// level contributes one bit (the node's index parity), assembled
/// most-significant-bit-first. The fuel caps the code at the 16 bits
/// the bit writer can take.
pub open spec fn enc_code_walk(parents: Seq<u16>, i: u16, j: u8, k: int, fuel: nat) -> (u16, u8)
    decreases fuel,
{
    let i1 = i >> 1;
    let i2 = if k % 2 == 1 {
        (((i1 + 0x8000) as int % 0x10000) as u16)
    } else {
        i1
    };
    let j2 = (j + 1) as u8;
    let k2 = parents[k] as int;
    if k2 == 626 || fuel <= 1 {
        (i2, j2)
    } else {
        enc_code_walk(parents, i2, j2, k2, (fuel - 1) as nat)
    }
}

/// Emit the code for symbol `c` and update the model.
pub open spec fn spec_encode_char(e: EncModel, c: u16) -> EncModel {
    let w = enc_code_walk(e.lz.parents, 0, 0, e.lz.parents[c + 627] as int, 16);
    EncModel {
        wout: spec_put_code(e.wout, w.1, w.0),
        lz: spec_update(e.lz, c),
        ..e
    }
}

/// Position-bucket bit lengths, keyed by the upper six position bits.
pub open spec fn spec_p_len(i: u16) -> u8 {
    if i == 0 {
        3
    } else if i < 4 {
        4
    } else if i < 12 {
        5
    } else if i < 24 {
        6
    } else if i < 48 {
        7
    } else {
        8
    }
}

/// Position-bucket codes, left-aligned in a byte.
pub open spec fn spec_p_code(i: u16) -> u8 {
    if i == 0 {
        0
    } else if i < 4 {
        (((i + 1) * 16) % 256) as u8
    } else if i < 12 {
        (((i + 6) * 8) % 256) as u8
    } else if i < 24 {
        (((i + 24) * 4) % 256) as u8
    } else if i < 48 {
        (((i + 72) * 2) % 256) as u8
    } else {
        ((i + 192) % 256) as u8
    }
}

/// Emit an 11-bit match position: a bucket code for the upper six
/// bits, then the lower six bits raw.
pub open spec fn spec_encode_position(w: BitWriteModel, c: u16) -> BitWriteModel {
    let i = c >> 6;
    let w1 = spec_put_code(w, spec_p_len(i), (spec_p_code(i) as u16) << 8);
    spec_put_code(w1, 6, (c & 0x3f) << 10)
}

fn p_len_of(i: u16) -> (r: u8)
    ensures
        r == spec_p_len(i),
{
    if i == 0 {
        3
    } else if i < 4 {
        4
    } else if i < 12 {
        5
    } else if i < 24 {
        6
    } else if i < 48 {
        7
    } else {
        8
    }
}

fn p_code_of(i: u16) -> (r: u8)
    ensures
        r == spec_p_code(i),
{
    if i == 0 {
        0
    } else if i < 4 {
        (((i as u32 + 1) * 16) % 256) as u8
    } else if i < 12 {
        (((i as u32 + 6) * 8) % 256) as u8
    } else if i < 24 {
        (((i as u32 + 24) * 4) % 256) as u8
    } else if i < 48 {
        (((i as u32 + 72) * 2) % 256) as u8
    } else {
        ((i as u32 + 192) % 256) as u8
    }
}

/// Preload the window: the first bytes of the input land at the ring
/// cursor, up to a window's worth.
pub open spec fn enc_fill(text: Seq<u8>, input: Seq<u8>, pos: int, len: u16) -> (
    Seq<u8>,
    int,
    u16,
)
    decreases 60 - len,
{
    if len >= 60 || pos >= input.len() {
        (text, pos, len)
    } else {
        enc_fill(text.update(1988 + len, input[pos]), input, pos + 1, (len + 1) as u16)
    }
}

/// Seed the search tree with the window positions just before the
/// cursor.
pub open spec fn enc_preinsert(e: EncModel, i: int) -> EncModel
    decreases 61 - i,
{
    if i < 1 || i > 60 {
        e
    } else {
        enc_preinsert(spec_insert_node(e, (1988 - i) as u16), i + 1)
    }
}

/// Advance while input remains: each consumed byte replaces the oldest
/// ring position, whose node leaves the tree and whose successor
/// enters it.
pub open spec fn enc_advance1(
    e: EncModel,
    input: Seq<u8>,
    pos: int,
    s: u16,
    r: u16,
    i: u16,
    last: u16,
) -> (EncModel, int, u16, u16, u16)
    decreases last - i,
{
    if i >= last || pos >= input.len() {
        (e, pos, s, r, i)
    } else {
        let c = input[pos];
        let e1 = spec_delete_node(e, s);
        let t1 = e1.lz.text.update(s as int, c);
        let t2 = if s < 59 {
            t1.update(s + 2048, c)
        } else {
            t1
        };
        let e2 = EncModel { lz: LzModel { text: t2, ..e1.lz }, ..e1 };
        let s2 = (((s + 1) as u16) & 2047) as u16;
        let r2 = (((r + 1) as u16) & 2047) as u16;
        let e3 = spec_insert_node(e2, r2);
        enc_advance1(e3, input, pos + 1, s2, r2, (i + 1) as u16, last)
    }
}

/// Drain the window once the input has ended: the remaining emitted
/// positions leave the tree and the window shrinks.
pub open spec fn enc_advance2(e: EncModel, s: u16, r: u16, len: u16, i: u16, last: u16) -> (
    EncModel,
    u16,
    u16,
    u16,
)
    decreases last - i,
{
    if i >= last {
        (e, s, r, len)
    } else {
        let e1 = spec_delete_node(e, s);
        let s2 = (((s + 1) as u16) & 2047) as u16;
        let r2 = (((r + 1) as u16) & 2047) as u16;
        let len2 = (len - 1) as u16;
        let e2 = if len2 > 0 {
            spec_insert_node(e1, r2)
        } else {
            e1
        };
        enc_advance2(e2, s2, r2, len2, (i + 1) as u16, last)
    }
}

/// The encode loop: emit a literal for a short match, or a
/// length-position pair for a long one, then advance past what was
/// emitted. The fuel only bounds the recursion; the executable encoder
/// supplies one unit per input byte plus one per window byte, which the
/// loop consumes faster than it spends.
pub open spec fn spec_encode_loop(
    e: EncModel,
    input: Seq<u8>,
    pos: int,
    s: u16,
    r: u16,
    len: u16,
    fuel: nat,
) -> EncModel
    decreases fuel,
{
    if fuel == 0 {
        e
    } else {
        let ml = if e.match_length > len {
            len
        } else {
            e.match_length
        };
        let e1 = if ml <= 2 {
            spec_encode_char(
                EncModel { match_length: 1, ..e },
                e.lz.text[r as int] as u16,
            )
        } else {
            let ec = spec_encode_char(EncModel { match_length: ml, ..e }, (253 + ml) as u16);
            EncModel { wout: spec_encode_position(ec.wout, ec.match_position), ..ec }
        };
        let last = e1.match_length;
        let a1 = enc_advance1(e1, input, pos, s, r, 0, last);
        let a2 = enc_advance2(a1.0, a1.2, a1.3, len, a1.4, last);
        if a2.3 == 0 {
            a2.0
        } else {
            spec_encode_loop(a2.0, input, a1.1, a2.1, a2.2, a2.3, (fuel - 1) as nat)
        }
    }
}

/// What encoding `input` does to a fresh-window encoder: preload,
/// seed the tree, then run the loop (an empty input emits nothing).
pub open spec fn spec_encode(e: EncModel, input: Seq<u8>) -> EncModel {
    let f = enc_fill(e.lz.text, input, 0, 0);
    let e0 = EncModel { lz: LzModel { text: f.0, ..e.lz }, ..e };
    let e1 = enc_preinsert(e0, 1);
    let e2 = spec_insert_node(e1, 1988);
    if f.2 == 0 {
        e2
    } else {
        spec_encode_loop(e2, input, f.1, 0, 1988, f.2, (input.len() + 61) as nat)
    }
}

/// The fresh encoder: fresh model, empty output, empty tree (only the
/// right-link buckets and the dummy parent slot are primed).
pub open spec fn spec_enc_init() -> EncModel {
    EncModel {
        lz: spec_init(),
        match_length: 0,
        match_position: 0,
        wout: BitWriteModel { buf: 0, pos: 0, out: Seq::empty() },
        lson: Seq::new(2049, |i: int| 0u16),
        rson: Seq::new(2305, |i: int| if i >= 2049 { 2048u16 } else { 0u16 }),
        dad: Seq::new(2049, |i: int| if i == 2048 { 0u16 } else { 2048u16 }),
    }
}

/// The LZHUF encoder: the shared model, the current match, the bit
/// writer, and the search tree over ring positions.
#[derive(Debug)]
pub struct Encoder {
    state: LzHufState,
    match_length: u16,
    match_position: u16,
    output: Bitbuffer,
    lson: Vec<u16>,
    rson: Vec<u16>,
    dad: Vec<u16>,
}

impl View for Encoder {
    type V = EncModel;

    closed spec fn view(&self) -> EncModel {
        EncModel {
            lz: self.state@,
            match_length: self.match_length,
            match_position: self.match_position,
            wout: self.output@,
            lson: self.lson@,
            rson: self.rson@,
            dad: self.dad@,
        }
    }
}

impl Encoder {
    pub fn new() -> (r: Encoder)
        ensures
            r@ == spec_enc_init(),
            r@.wf(),
    {
        let lson: Vec<u16> = vec![0u16; 2049];
        let mut rson: Vec<u16> = vec![0u16; 2305];
        let mut i: usize = 2049;
        while i < 2305
            invariant
                2049 <= i <= 2305,
                rson@.len() == 2305,
                forall|q: int| 0 <= q < 2049 ==> #[trigger] rson@[q] == 0u16,
                forall|q: int| 2049 <= q < i ==> #[trigger] rson@[q] == 2048u16,
                forall|q: int| i <= q < 2305 ==> #[trigger] rson@[q] == 0u16,
            decreases 2305 - i,
        {
            rson[i] = 2048;
            i = i + 1;
        }
        let mut dad: Vec<u16> = vec![2048u16; 2049];
        dad[2048] = 0;
        let r = Encoder {
            state: LzHufState::new(),
            match_length: 0,
            match_position: 0,
            output: Bitbuffer::new(),
            lson,
            rson,
            dad,
        };
        proof {
            assert(r.lson@ =~= Seq::new(2049, |i: int| 0u16));
            assert(r.rson@ =~= Seq::new(2305, |i: int| if i >= 2049 { 2048u16 } else { 0u16 }));
            assert(r.dad@ =~= Seq::new(2049, |i: int| if i == 2048 { 0u16 } else { 2048u16 }));
            assert(r@ =~= spec_enc_init());
        }
        r
    }

    /// Insert ring position `r` into the search tree, recording the
    /// longest match against the window at `r` on the way down.
    fn insert_node(&mut self, r: u16)
        requires
            old(self)@.wf(),
            r < 2048,
        ensures
            final(self)@ == spec_insert_node(old(self)@, r),
            final(self)@.wf(),
    {
        let kb = self.state.text_buffer[r as usize];
        let mut p: u16 = 2049 + kb as u16;
        self.lson[r as usize] = 2048;
        self.rson[r as usize] = 2048;
        self.match_length = 0;
        let ghost total = spec_insert_node(old(self)@, r);
        let mut cmp: i32 = 1;
        let mut fuelc: u16 = 2305;
        loop
            invariant_except_break
                old(self)@.wf(),
                r < 2048,
                self@.wf(),
                total == spec_insert_node(old(self)@, r),
                cmp >= 0 ==> p <= 2304,
                cmp < 0 ==> p <= 2047,
                ins_walk(self@, r, p as int, cmp as int, fuelc as nat) == total,
            ensures
                self@ == total,
                self@.wf(),
            decreases fuelc,
        {
            if fuelc == 0 {
                break;
            }
            if cmp >= 0 {
                if self.rson[p as usize] != 2048 {
                    p = self.rson[p as usize];
                } else {
                    self.rson[p as usize] = r;
                    self.dad[r as usize] = p;
                    break;
                }
            } else {
                if self.lson[p as usize] != 2048 {
                    p = self.lson[p as usize];
                } else {
                    self.lson[p as usize] = r;
                    self.dad[r as usize] = p;
                    break;
                }
            }

            let mut ci: u16 = 1;
            let mut cv: i32 = 0;
            while ci < 60
                invariant_except_break
                    1 <= ci <= 60,
                    p <= 2047,
                    r < 2048,
                    self@.lz.text.len() == 2107,
                    cv == 0,
                    ins_cmp(self@.lz.text, r as int, p as int, ci as int) == ins_cmp(
                        self@.lz.text,
                        r as int,
                        p as int,
                        1,
                    ),
                ensures
                    (ci as int, cv as int) == ins_cmp(self@.lz.text, r as int, p as int, 1),
                    1 <= ci <= 60,
                decreases 60 - ci,
            {
                let a = self.state.text_buffer[(r + ci) as usize];
                let b = self.state.text_buffer[(p + ci) as usize];
                cv = a as i32 - b as i32;
                if cv != 0 {
                    break;
                }
                ci = ci + 1;
            }
            cmp = cv;

            let ghost epre = self@;
            let i = ci;
            let mut brk: bool = false;
            if i > 2 {
                if i > self.match_length {
                    let d: u16 = ((r as u32 + 2048 - p as u32) & 2047) as u16;
                    let mp: u16 = ((d as u32 + 0x10000 - 1) % 0x10000) as u16;
                    self.match_position = mp;
                    self.match_length = i;
                    if i >= 60 {
                        brk = true;
                    } else {
                        let d2: u16 = ((r as u32 + 2048 - p as u32) & 2047) as u16;
                        let c2: u16 = ((d2 as u32 + 0x10000 - 1) % 0x10000) as u16;
                        if c2 < self.match_position {
                            self.match_position = c2;
                        }
                    }
                } else if i == self.match_length {
                    let d2: u16 = ((r as u32 + 2048 - p as u32) & 2047) as u16;
                    let c2: u16 = ((d2 as u32 + 0x10000 - 1) % 0x10000) as u16;
                    if c2 < self.match_position {
                        self.match_position = c2;
                    }
                }
            }
            proof {
                assert(self@ =~= ins_match(epre, r, p as int, i as int).0);
                assert(brk == ins_match(epre, r, p as int, i as int).1);
            }
            if brk {
                // replace node p with r
                self.dad[r as usize] = self.dad[p as usize];
                self.lson[r as usize] = self.lson[p as usize];
                self.rson[r as usize] = self.rson[p as usize];
                let ls = self.lson[p as usize];
                self.dad[ls as usize] = r;
                let rs = self.rson[p as usize];
                self.dad[rs as usize] = r;
                let dp = self.dad[p as usize];
                if self.rson[dp as usize] == p {
                    self.rson[dp as usize] = r;
                } else {
                    if dp <= 2048 {
                        self.lson[dp as usize] = r;
                    }
                }
                self.dad[p as usize] = 2048;
                break;
            }
            fuelc = fuelc - 1;
        }
    }

    /// The rightmost node under `q0`, by right links.
    fn del_rightmost(&self, q0: u16) -> (q: u16)
        requires
            self@.wf(),
            q0 <= 2047,
            self@.rson[q0 as int] != 2048,
        ensures
            q as int == del_desc(self@.rson, q0 as int, 2049),
            q <= 2047,
    {
        let mut q: u16 = q0;
        let mut fuelc: u16 = 2049;
        loop
            invariant_except_break
                self@.wf(),
                q <= 2047,
                self@.rson[q as int] != 2048,
                fuelc <= 2049,
                del_desc(self@.rson, q as int, fuelc as nat) == del_desc(
                    self@.rson,
                    q0 as int,
                    2049,
                ),
            ensures
                q as int == del_desc(self@.rson, q0 as int, 2049),
                q <= 2047,
            decreases fuelc,
        {
            if fuelc == 0 {
                break;
            }
            q = self.rson[q as usize];
            if self.rson[q as usize] == 2048 {
                break;
            }
            fuelc = fuelc - 1;
        }
        q
    }

    /// Splice ring position `p` out of the search tree, if it is in it.
    fn delete_node(&mut self, p: u16)
        requires
            old(self)@.wf(),
            p < 2048,
        ensures
            final(self)@ == spec_delete_node(old(self)@, p),
            final(self)@.wf(),
    {
        if self.dad[p as usize] == 2048 {
            return;
        }
        let q: u16;
        if self.rson[p as usize] == 2048 {
            q = self.lson[p as usize];
        } else if self.lson[p as usize] == 2048 {
            q = self.rson[p as usize];
        } else {
            let q0 = self.lson[p as usize];
            if self.rson[q0 as usize] != 2048 {
                let qr = self.del_rightmost(q0);
                q = qr;
                let dq = self.dad[q as usize];
                let lq = self.lson[q as usize];
                self.rson[dq as usize] = lq;
                let lq2 = self.lson[q as usize];
                let dq2 = self.dad[q as usize];
                self.dad[lq2 as usize] = dq2;
                let lp = self.lson[p as usize];
                self.lson[q as usize] = lp;
                let lp2 = self.lson[p as usize];
                self.dad[lp2 as usize] = q;
            } else {
                q = q0;
            }
            let rp = self.rson[p as usize];
            self.rson[q as usize] = rp;
            let rp2 = self.rson[p as usize];
            self.dad[rp2 as usize] = q;
        }
        let dpp = self.dad[p as usize];
        self.dad[q as usize] = dpp;
        let dp = self.dad[p as usize];
        if self.rson[dp as usize] == p {
            self.rson[dp as usize] = q;
        } else {
            if dp <= 2048 {
                self.lson[dp as usize] = q;
            }
        }
        self.dad[p as usize] = 2048;
    }

    /// Emit the Huffman code of symbol `c` and update the model.
    fn encode_char(&mut self, c: u16)
        requires
            old(self)@.wf(),
            c < 314,
        ensures
            final(self)@ == spec_encode_char(old(self)@, c),
            final(self)@.wf(),
    {
        let ghost total = enc_code_walk(
            old(self)@.lz.parents,
            0,
            0,
            old(self)@.lz.parents[c + 627] as int,
            16,
        );
        let mut i: u16 = 0;
        let mut j: u8 = 0;
        let mut k: u16 = self.state.parents[(c + 627) as usize];
        let mut fuelc: u8 = 16;
        loop
            invariant_except_break
                self == old(self),
                self@.wf(),
                k < 627,
                1 <= fuelc <= 16,
                j == 16 - fuelc,
                enc_code_walk(self@.lz.parents, i, j, k as int, fuelc as nat) == total,
            ensures
                self == old(self),
                i == total.0,
                j == total.1,
                j <= 16,
            decreases fuelc,
        {
            i = i >> 1;
            if k % 2 == 1 {
                i = ((i as u32 + 0x8000) % 0x10000) as u16;
            }
            j = j + 1;
            k = self.state.parents[k as usize];
            if k == 626 || fuelc <= 1 {
                break;
            }
            fuelc = fuelc - 1;
        }
        self.output.put_code(j, i);
        self.state.update(c);
    }

    /// Emit an 11-bit match position.
    fn encode_position(&mut self, c: u16)
        requires
            old(self)@.wf(),
        ensures
            final(self)@ == (EncModel {
                wout: spec_encode_position(old(self)@.wout, c),
                ..old(self)@
            }),
            final(self)@.wf(),
    {
        let i = c >> 6;
        let pl = p_len_of(i);
        let pc = p_code_of(i);
        self.output.put_code(pl, (pc as u16) << 8);
        self.output.put_code(6, (c & 0x3f) << 10);
    }

    /// Encode the whole input: preload the window, seed the tree, and
    /// run the emit-and-advance loop until the window drains.
    pub fn encode(&mut self, input: &Vec<u8>)
        requires
            old(self)@.wf(),
        ensures
            final(self)@ == spec_encode(old(self)@, input@),
            final(self)@.wf(),
    {
        let ghost etot = spec_encode(old(self)@, input@);
        let mut s: u16 = 0;
        let mut r: u16 = 1988;
        let mut len: u16 = 0;
        let mut pos: usize = 0;
        while len < 60 && pos < input.len()
            invariant
                len <= 60,
                pos <= input@.len(),
                old(self)@.wf(),
                self@.wf(),
                etot == spec_encode(old(self)@, input@),
                self@ == (EncModel {
                    lz: LzModel { text: self@.lz.text, ..old(self)@.lz },
                    ..old(self)@
                }),
                enc_fill(self@.lz.text, input@, pos as int, len) == enc_fill(
                    old(self)@.lz.text,
                    input@,
                    0,
                    0,
                ),
            decreases 60 - len,
        {
            self.state.text_buffer[(1988 + len) as usize] = input[pos];
            len = len + 1;
            pos = pos + 1;
        }
        let ghost efill = self@;
        proof {
            assert(enc_fill(old(self)@.lz.text, input@, 0, 0) == (self@.lz.text, pos as int, len));
        }

        let mut ii: u16 = 1;
        while ii <= 60
            invariant
                1 <= ii <= 61,
                self@.wf(),
                enc_preinsert(self@, ii as int) == enc_preinsert(efill, 1),
            decreases 61 - ii,
        {
            self.insert_node(1988 - ii);
            ii = ii + 1;
        }
        self.insert_node(1988);
        proof {
            assert(self@ == spec_insert_node(enc_preinsert(efill, 1), 1988));
        }
        if len == 0 {
            return;
        }

        let ghost mut fuel: nat = (input@.len() + 61) as nat;
        loop
            invariant_except_break
                self@.wf(),
                s < 2048,
                r < 2048,
                1 <= len <= 60,
                pos <= input@.len(),
                fuel >= (input@.len() - pos) + len + 1,
                etot == spec_encode_loop(self@, input@, pos as int, s, r, len, fuel),
            ensures
                self@ == etot,
                self@.wf(),
            decreases fuel,
        {
            let ghost fuel0 = fuel;
            let ghost etop = self@;
            let ghost post = pos;
            let ghost st = s;
            let ghost rt = r;
            let ghost lent = len;
            if self.match_length > len {
                self.match_length = len;
            }
            if self.match_length <= 2 {
                self.match_length = 1;
                let ch = self.state.text_buffer[r as usize];
                self.encode_char(ch as u16);
            } else {
                let sym: u16 = 253 + self.match_length;
                self.encode_char(sym);
                let mp = self.match_position;
                self.encode_position(mp);
            }
            let last = self.match_length;
            let ghost eemit = self@;

            let mut i2: u16 = 0;
            while i2 < last && pos < input.len()
                invariant
                    i2 <= last,
                    pos <= input@.len(),
                    pos == post + i2,
                    s < 2048,
                    r < 2048,
                    self@.wf(),
                    enc_advance1(self@, input@, pos as int, s, r, i2, last) == enc_advance1(
                        eemit,
                        input@,
                        post as int,
                        st,
                        rt,
                        0,
                        last,
                    ),
                decreases last - i2,
            {
                let cch = input[pos];
                pos = pos + 1;
                self.delete_node(s);
                self.state.text_buffer[s as usize] = cch;
                if s < 59 {
                    self.state.text_buffer[(s + 2048) as usize] = cch;
                }
                let s1: u16 = (s + 1) & 2047;
                let r1: u16 = (r + 1) & 2047;
                proof {
                    assert((s + 1) as u16 & 2047 < 2048) by (bit_vector);
                    assert((r + 1) as u16 & 2047 < 2048) by (bit_vector);
                }
                s = s1;
                r = r1;
                self.insert_node(r);
                i2 = i2 + 1;
            }
            let ghost adv1 = enc_advance1(eemit, input@, post as int, st, rt, 0, last);
            proof {
                assert((self@, pos as int, s, r, i2) =~= adv1);
            }

            while i2 < last
                invariant
                    i2 <= last,
                    s < 2048,
                    r < 2048,
                    len >= last - i2,
                    len <= 60,
                    len + i2 == lent + adv1.4,
                    self@.wf(),
                    enc_advance2(self@, s, r, len, i2, last) == enc_advance2(
                        adv1.0,
                        adv1.2,
                        adv1.3,
                        lent,
                        adv1.4,
                        last,
                    ),
                decreases last - i2,
            {
                i2 = i2 + 1;
                self.delete_node(s);
                let s1: u16 = (s + 1) & 2047;
                let r1: u16 = (r + 1) & 2047;
                proof {
                    assert((s + 1) as u16 & 2047 < 2048) by (bit_vector);
                    assert((r + 1) as u16 & 2047 < 2048) by (bit_vector);
                }
                s = s1;
                r = r1;
                len = len - 1;
                if len > 0 {
                    self.insert_node(r);
                }
            }
            proof {
                assert((self@, s, r, len) =~= enc_advance2(
                    adv1.0,
                    adv1.2,
                    adv1.3,
                    lent,
                    adv1.4,
                    last,
                ));
                fuel = (fuel - 1) as nat;
            }
            if len == 0 {
                break;
            }
        }
    }

    /// Flush the bit writer and hand the compressed bytes over.
    pub fn finish(self) -> (r: Vec<u8>)
        ensures
            r@ == spec_bits_finish(self@.wout),
    {
        let Encoder { output, .. } = self;
        output.finish()
    }
}

} // verus!
