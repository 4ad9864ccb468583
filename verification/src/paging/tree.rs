//! The table tree of a pageset and the page-by-page walk that modifies it.

use vstd::prelude::*;

use super::generic::{Page, PageType};
use crate::constants::{KERNEL_LOW_END, KERNEL_LOW_START, KERNEL_OFFSET};
use crate::memory::InitMemoryMap;
use super::x86_64::{spec_decode, spec_encode, spec_vaddr_ok, Error, ModifyWhileState, Pml4Kind, Pt, VAddrExt, PAGE_SIZE};

verus! {

use vstd::arithmetic::div_mod::{lemma_fundamental_div_mod, lemma_fundamental_div_mod_converse};

/// Addresses wrap around at the top of the 64-bit address space.
pub open spec fn wrap(x: int) -> int {
    if x >= 0x1_0000_0000_0000_0000 {
        x - 0x1_0000_0000_0000_0000
    } else {
        x
    }
}

/// The start of the block of `span` bytes after the one holding `x`, at the
/// same offset within its page as `x`.
pub open spec fn next_block(x: int, span: int) -> int {
    x - x % span + span + x % 4096
}

/// Moving from inside a child block to the next one: either the next child
/// of the same parent, or the next parent block.
proof fn lemma_next_block(x: int, c: int)
    requires
        0 <= x < 0x1_0000_0000_0000_0000,
        c == 0x20_0000 || c == 0x4000_0000 || c == 0x80_0000_0000,
    ensures
        (x % (512 * c)) / c < 511 ==> {
            let w = next_block(x, c);
            &&& w < 0x1_0000_0000_0000_0000
            &&& w / (512 * c) == x / (512 * c)
            &&& (w / (512 * c)) % 512 == (x / (512 * c)) % 512
            &&& (w % (512 * c)) / c == (x % (512 * c)) / c + 1
            &&& w % c == x % 4096
        },
        (x % (512 * c)) / c == 511 ==> wrap(next_block(x, c)) == wrap(next_block(x, 512 * c)),
        (x % (512 * c)) / c == 511 ==> (wrap(next_block(x, c)) / (512 * c)) % 512 != (x / (512 * c)) % 512,
{
    let p = 512 * c;
    let m = c / 4096;
    assert(c == 4096 * m);
    let qp = x / p;
    let rp = x % p;
    lemma_fundamental_div_mod(x, p);
    let b = rp / c;
    let r = rp % c;
    lemma_fundamental_div_mod(rp, c);
    assert(x == (qp * 512 + b) * c + r) by (nonlinear_arith)
        requires
            x == p * qp + rp,
            rp == c * b + r,
            p == 512 * c,
    ;
    lemma_fundamental_div_mod_converse(x, c, qp * 512 + b, r);
    let o = r % 4096;
    lemma_fundamental_div_mod(r, 4096);
    assert(x == ((qp * 512 + b) * m + r / 4096) * 4096 + o) by (nonlinear_arith)
        requires
            x == (qp * 512 + b) * c + r,
            r == 4096 * (r / 4096) + o,
            c == 4096 * m,
    ;
    lemma_fundamental_div_mod_converse(x, 4096, (qp * 512 + b) * m + r / 4096, o);
    assert(x % 4096 == o);
    assert(next_block(x, c) == qp * p + (b + 1) * c + o) by (nonlinear_arith)
        requires
            x == p * qp + c * b + r,
            x % c == r,
            x % 4096 == o,
            next_block(x, c) == x - x % c + c + x % 4096,
    ;
    assert(0 <= b < 512) by (nonlinear_arith)
        requires
            rp == c * b + r,
            0 <= rp < p,
            0 <= r < c,
            p == 512 * c,
    ;
    assert(qp * p + p <= 0x1_0000_0000_0000_0000) by (nonlinear_arith)
        requires
            x == p * qp + rp,
            0 <= rp < p,
            x < 0x1_0000_0000_0000_0000,
            p == 0x4000_0000 || p == 0x80_0000_0000 || p == 0x1_0000_0000_0000,
    ;
    if b < 511 {
        let w = next_block(x, c);
        assert((b + 1) * c + o < p && 0 <= (b + 1) * c + o) by (nonlinear_arith)
            requires
                b < 511,
                0 <= b,
                0 <= o < 4096,
                c >= 4096,
                p == 512 * c,
        ;
        lemma_fundamental_div_mod_converse(w, p, qp, (b + 1) * c + o);
        lemma_fundamental_div_mod_converse((b + 1) * c + o, c, b + 1, o);
        assert(w == (qp * 512 + b + 1) * c + o) by (nonlinear_arith)
            requires
                w == qp * p + (b + 1) * c + o,
                p == 512 * c,
        ;
        lemma_fundamental_div_mod_converse(w, c, qp * 512 + b + 1, o);
    } else {
        assert(next_block(x, c) == qp * p + p + o) by (nonlinear_arith)
            requires
                next_block(x, c) == qp * p + (b + 1) * c + o,
                b == 511,
                p == 512 * c,
        ;
        assert(next_block(x, p) == qp * p + p + o);
        let w = wrap(next_block(x, c));
        if qp * p + p < 0x1_0000_0000_0000_0000 {
            lemma_fundamental_div_mod_converse(w, p, qp + 1, o);
            assert(qp % 512 != (qp + 1) % 512) by (nonlinear_arith);
        } else {
            assert(qp * p + p == 0x1_0000_0000_0000_0000);
            assert(w == o);
            lemma_fundamental_div_mod_converse(w, p, 0, o);
            assert(qp % 512 == 511) by (nonlinear_arith)
                requires
                    qp * p + p == 0x1_0000_0000_0000_0000,
                    p == 0x4000_0000 || p == 0x80_0000_0000 || p == 0x1_0000_0000_0000,
            ;
        }
    }
}

/// An index at one level is the block of the level above, divided.
proof fn lemma_index(x: int, c: int)
    requires
        0 <= x,
        c > 0,
    ensures
        (x / c) % 512 == (x % (512 * c)) / c,
        0 <= (x % (512 * c)) / c < 512,
{
    let p = 512 * c;
    lemma_fundamental_div_mod(x, p);
    let q = x / p;
    let r = x % p;
    lemma_fundamental_div_mod(r, c);
    assert(x == (q * 512 + r / c) * c + r % c) by (nonlinear_arith)
        requires
            x == p * q + r,
            r == c * (r / c) + r % c,
            p == 512 * c,
    ;
    lemma_fundamental_div_mod_converse(x, c, q * 512 + r / c, r % c);
    assert(0 <= r / c < 512) by (nonlinear_arith)
        requires
            0 <= r < p,
            p == 512 * c,
            c > 0,
            r == c * (r / c) + r % c,
            0 <= r % c < c,
    ;
    lemma_fundamental_div_mod_converse(x / c, 512, q, r / c);
}

/// Decides, page after page, what a run of pages becomes.
pub trait PageEditor: Sized {
    /// The answer for a page: the page to store there, or nothing to stop.
    spec fn answer(&self, page: Page) -> Option<Page>;

    /// The editor after answering for a page.
    spec fn after(&self, page: Page) -> Self;

    fn edit(&mut self, page: Page) -> (r: Option<Page>)
        ensures
            r == old(self).answer(page),
            *final(self) == old(self).after(page),
    ;
}

/// What a table entry keeps of a page stored in it.
pub open spec fn stored(page: Page) -> Page {
    spec_decode(spec_encode(page))
}

/// Asking `e` about the pages `s[i..hi]` in order and storing each answer,
/// until it answers nothing: the editor after, the pages after, and whether
/// it stopped.
pub open spec fn run<E: PageEditor>(e: E, s: Seq<Page>, i: int, hi: int) -> (E, Seq<Page>, bool)
    decreases hi - i,
{
    if i >= hi || i < 0 {
        (e, s, false)
    } else {
        match e.answer(s[i]) {
            None => (e.after(s[i]), s, true),
            Some(p) => run(e.after(s[i]), s.update(i, stored(p)), i + 1, hi),
        }
    }
}

/// A run that gets through `[a, b)` goes on from `b`; one that stops
/// before `b` is done.
pub proof fn lemma_run_split<E: PageEditor>(e: E, s: Seq<Page>, a: int, b: int, c: int)
    requires
        0 <= a <= b <= c <= s.len(),
    ensures
        run(e, s, a, b).1.len() == s.len(),
        run(e, s, a, b).2 ==> run(e, s, a, c) == run(e, s, a, b),
        !run(e, s, a, b).2 ==> run(e, s, a, c) == run(run(e, s, a, b).0, run(e, s, a, b).1, b, c),
    decreases b - a,
{
    if a < b {
        match e.answer(s[a]) {
            None => {},
            Some(p) => {
                lemma_run_split(e.after(s[a]), s.update(a, stored(p)), a + 1, b, c);
            },
        }
    }
}

/// A run over the block `big[base..base + n]` is the run over the block by
/// itself, written back into `big`.
pub proof fn lemma_run_block<E: PageEditor>(e: E, big: Seq<Page>, small: Seq<Page>, base: int, d: int)
    requires
        0 <= d <= small.len(),
        0 <= base,
        base + small.len() <= big.len(),
        forall|j: int| 0 <= j < small.len() ==> big[base + j] == small[j],
    ensures
        ({
            let rs = run(e, small, d, small.len() as int);
            let rb = run(e, big, base + d, base + small.len());
            &&& rb.0 == rs.0
            &&& rb.2 == rs.2
            &&& rb.1.len() == big.len()
            &&& rs.1.len() == small.len()
            &&& forall|j: int| 0 <= j < small.len() ==> rb.1[base + j] == rs.1[j]
            &&& forall|k: int| 0 <= k < big.len() && !(base <= k < base + small.len()) ==> rb.1[k] == big[k]
        }),
    decreases small.len() - d,
{
    let n = small.len() as int;
    if d < n {
        assert(big[base + d] == small[d]);
        match e.answer(small[d]) {
            None => {
                assert(run(e, small, d, n) == (e.after(small[d]), small, true));
                assert(run(e, big, base + d, base + n) == (e.after(small[d]), big, true));
            },
            Some(p) => {
                let big2 = big.update(base + d, stored(p));
                let small2 = small.update(d, stored(p));
                assert forall|j: int| 0 <= j < small2.len() implies big2[base + j] == small2[j] by {
                    if j != d {
                        assert(big[base + j] == small[j]);
                    }
                }
                lemma_run_block(e.after(small[d]), big2, small2, base, d + 1);
                let rb2 = run(e.after(small[d]), big2, base + d + 1, base + n);
                assert forall|k: int| 0 <= k < big.len() && !(base <= k < base + n) implies rb2.1[k] == big[k] by {
                    assert(rb2.1[k] == big2[k]);
                }
                assert(run(e, small, d, n) == run(e.after(small[d]), small2, d + 1, n));
                assert(run(e, big, base + d, base + n) == run(e.after(small[d]), big2, base + d + 1, base + n));
            },
        }
    }
}

/// A page table present or not, with its 512 entries.
pub open spec fn pt_wf(hole: Option<Box<Pt>>) -> bool {
    hole matches Some(pt) ==> pt.entries().len() == 512
}

/// The pages a page table slot maps; an empty slot maps none.
pub open spec fn pt_pages(hole: Option<Box<Pt>>) -> Seq<Page> {
    match hole {
        None => Seq::new(512, |i: int| None),
        Some(pt) => Seq::new(512, |i: int| spec_decode(pt.entries()[i])),
    }
}

/// Ask `editor` about each page from `vaddr` to the end of the page table
/// slot, storing its answers (creating the table when needed) until it
/// answers nothing.
pub fn pt_modify_while<E: PageEditor>(hole: &mut Option<Box<Pt>>, vaddr: usize, editor: &mut E) -> (r: ModifyWhileState)
    requires
        usize::MAX == u64::MAX,
        pt_wf(*old(hole)),
    ensures
        pt_wf(*final(hole)),
        ({
            let w = run(*old(editor), pt_pages(*old(hole)), (vaddr % 0x20_0000) as int / 4096, 512);
            &&& *final(editor) == w.0
            &&& pt_pages(*final(hole)) == w.1
            &&& r == if w.2 {
                ModifyWhileState::Done
            } else {
                ModifyWhileState::Continue(wrap(next_block(vaddr as int, 0x20_0000)) as usize)
            }
        }),
{
    let ghost x = vaddr as int;
    let ghost start = (vaddr % 0x20_0000) as int / 4096;
    let ghost e0 = *editor;
    let ghost s0 = pt_pages(*hole);
    proof {
        lemma_index(x, 4096);
        lemma_fundamental_div_mod(x % 0x20_0000, 4096);
        assert(x % 0x20_0000 % 4096 == x % 4096) by {
            lemma_fundamental_div_mod(x, 0x20_0000);
            vstd::arithmetic::div_mod::lemma_mod_mod(x, 4096, 512);
        }
    }
    let mut v = vaddr;
    let mut index = v.pt_index();
    assert(index == start);
    while index < 512
        invariant
            e0 == *old(editor),
            s0 == pt_pages(*old(hole)),
            x == vaddr as int,
            start == (vaddr % 0x20_0000) as int / 4096,
            usize::MAX == u64::MAX,
            start <= index <= 512,
            pt_wf(*hole),
            0 <= x < 0x1_0000_0000_0000_0000,
            x - x % 0x20_0000 + 0x20_0000 <= 0x1_0000_0000_0000_0000,
            x % 0x20_0000 == start * 4096 + x % 4096,
            v as int == wrap(x + (index - start) * 4096),
            run(e0, s0, start, 512) == run(*editor, pt_pages(*hole), index as int, 512),
        decreases 512 - index,
    {
        let current = match hole {
            Some(pt) => pt.get(index),
            None => None,
        };
        assert(current == pt_pages(*hole)[index as int]);
        match editor.edit(current) {
            Some(page) => {
                let ghost before = pt_pages(*hole);
                let mut pt = match hole.take() {
                    Some(b) => *b,
                    None => Pt::new(),
                };
                assert(pt_pages(Some(Box::new(pt))) =~= before) by {
                    assert(0u64 & 1u64 != 1u64) by (bit_vector);
                }
                pt.set(index, page);
                *hole = Some(Box::new(pt));
                assert(pt_pages(*hole) =~= before.update(index as int, stored(page)));
            },
            None => {
                assert(run(e0, s0, start, 512) == (*editor, pt_pages(*hole), true));
                return ModifyWhileState::Done;
            },
        }
        v = v.wrapping_add(PAGE_SIZE);
        index = index + 1;
    }
    ModifyWhileState::Continue(v)
}

/// Where in a level's span an address lies, counted in pages: the block of
/// the level below and the pages into it.
proof fn lemma_start(x: int, c: int)
    requires
        0 <= x,
        c == 0x20_0000 || c == 0x4000_0000 || c == 0x80_0000_0000,
    ensures
        (x % (512 * c)) / 4096 == ((x % (512 * c)) / c) * (c / 4096) + (x % c) / 4096,
        x % c == (x % (512 * c)) % c,
        x % 4096 == (x % c) % 4096,
        (x % (512 * c)) / c < 512,
        0 <= (x % c) / 4096 < c / 4096,
{
    let p = 512 * c;
    let m = c / 4096;
    assert(c == 4096 * m);
    lemma_fundamental_div_mod(x, p);
    let r = x % p;
    lemma_fundamental_div_mod(r, c);
    let b = r / c;
    let rc = r % c;
    assert(x == (x / p * 512 + b) * c + rc) by (nonlinear_arith)
        requires
            x == p * (x / p) + r,
            r == c * b + rc,
            p == 512 * c,
    ;
    lemma_fundamental_div_mod_converse(x, c, x / p * 512 + b, rc);
    lemma_fundamental_div_mod(rc, 4096);
    assert(r == (b * m + rc / 4096) * 4096 + rc % 4096) by (nonlinear_arith)
        requires
            r == c * b + rc,
            rc == 4096 * (rc / 4096) + rc % 4096,
            c == 4096 * m,
    ;
    lemma_fundamental_div_mod_converse(r, 4096, b * m + rc / 4096, rc % 4096);
    assert(x == ((x / p * 512 + b) * m + rc / 4096) * 4096 + rc % 4096) by (nonlinear_arith)
        requires
            x == (x / p * 512 + b) * c + rc,
            rc == 4096 * (rc / 4096) + rc % 4096,
            c == 4096 * m,
    ;
    lemma_fundamental_div_mod_converse(x, 4096, (x / p * 512 + b) * m + rc / 4096, rc % 4096);
    assert(0 <= b < 512) by (nonlinear_arith)
        requires
            r == c * b + rc,
            0 <= r < p,
            0 <= rc < c,
            p == 512 * c,
    ;
    assert(0 <= rc / 4096 < m) by (nonlinear_arith)
        requires
            rc == 4096 * (rc / 4096) + rc % 4096,
            0 <= rc < c,
            0 <= rc % 4096 < 4096,
            c == 4096 * m,
    ;
}

/// A page directory: 512 page table slots.
struct Pd {
    pts: Vec<Option<Box<Pt>>>,
}

spec fn pd_wf(hole: Option<Box<Pd>>) -> bool {
    hole matches Some(pd) ==> pd.pts@.len() == 512 && forall|k: int| 0 <= k < 512 ==> pt_wf(#[trigger] pd.pts@[k])
}

spec fn pd_pages(hole: Option<Box<Pd>>) -> Seq<Page> {
    match hole {
        None => Seq::new(0x4_0000, |i: int| None),
        Some(pd) => Seq::new(0x4_0000, |i: int| pt_pages(pd.pts@[i / 512])[i % 512]),
    }
}

impl Pd {
    fn new() -> (r: Pd)
        ensures
            pd_wf(Some(Box::new(r))),
            pd_pages(Some(Box::new(r))) == pd_pages(None),
    {
        let mut pts: Vec<Option<Box<Pt>>> = Vec::new();
        let mut i: usize = 0;
        while i < 512
            invariant
                i <= 512,
                pts@.len() == i,
                forall|k: int| 0 <= k < i ==> pts@[k] is None,
            decreases 512 - i,
        {
            pts.push(None);
            i = i + 1;
        }
        let r = Pd { pts };
        assert(pd_pages(Some(Box::new(r))) =~= pd_pages(None));
        r
    }
}

/// Ask `editor` about each page from `vaddr` to the end of the page
/// directory slot, storing its answers (creating tables when needed) until
/// it answers nothing.
#[verifier::spinoff_prover]
#[verifier::rlimit(40)]
fn pd_modify_while<E: PageEditor>(hole: &mut Option<Box<Pd>>, vaddr: usize, editor: &mut E) -> (r: ModifyWhileState)
    requires
        usize::MAX == u64::MAX,
        pd_wf(*old(hole)),
    ensures
        pd_wf(*final(hole)),
        ({
            let w = run(*old(editor), pd_pages(*old(hole)), (vaddr % 0x4000_0000) as int / 4096, 0x4_0000);
            &&& *final(editor) == w.0
            &&& pd_pages(*final(hole)) == w.1
            &&& r == if w.2 {
                ModifyWhileState::Done
            } else {
                ModifyWhileState::Continue(wrap(next_block(vaddr as int, 0x4000_0000)) as usize)
            }
        }),
{
    let ghost x0 = vaddr as int;
    let ghost e0 = *editor;
    let ghost s0 = pd_pages(*hole);
    let ghost start = (vaddr % 0x4000_0000) as int / 4096;
    let mut v = vaddr;
    loop
        invariant
            e0 == *old(editor),
            s0 == pd_pages(*old(hole)),
            x0 == vaddr as int,
            start == (vaddr % 0x4000_0000) as int / 4096,
            usize::MAX == u64::MAX,
            pd_wf(*hole),
            v as int / 0x4000_0000 == x0 / 0x4000_0000,
            v as int % 4096 == x0 % 4096,
            start <= (v % 0x4000_0000) as int / 4096,
            run(e0, s0, start, 0x4_0000) == run(*editor, pd_pages(*hole), (v % 0x4000_0000) as int / 4096, 0x4_0000),
        decreases 0x4_0000 - (v % 0x4000_0000) as int / 4096,
    {
        let index = v.pd_index();
        let ghost x = v as int;
        let ghost cur = (x % 0x4000_0000) / 4096;
        let ghost d = (x % 0x20_0000) / 4096;
        proof {
            lemma_index(x, 0x20_0000);
            lemma_start(x, 0x20_0000);
            lemma_next_block(x, 0x20_0000);
            lemma_start(x, 0x4000_0000);
        }
        assert(cur == index * 512 + d);
        let ghost big = pd_pages(*hole);
        let ghost ed = *editor;
        let state;
        match hole.take() {
            Some(b) => {
                let mut pd = *b;
                let mut child: Option<Box<Pt>> = None;
                core::mem::swap(&mut child, &mut pd.pts[index]);
                let ghost small = pt_pages(child);
                proof {
                    assert forall|j: int| 0 <= j < 512 implies big[index * 512 + j] == small[j] by {
                        assert((index * 512 + j) / 512 == index) by (nonlinear_arith)
                            requires 0 <= j < 512, index >= 0;
                        assert((index * 512 + j) % 512 == j) by (nonlinear_arith)
                            requires 0 <= j < 512, index >= 0;
                    }
                    lemma_run_block(ed, big, small, index * 512, d);
                }
                let ghost pts0 = pd.pts@;
                state = pt_modify_while(&mut child, v, editor);
                let ghost child_new = child;
                core::mem::swap(&mut child, &mut pd.pts[index]);
                assert(pd.pts@ == pts0.update(index as int, child_new));
                *hole = Some(Box::new(pd));
                proof {
                    let rb = run(ed, big, index * 512 + d, index * 512 + 512);
                    let rs = run(ed, small, d, 512);
                    assert(pt_pages(child_new) == rs.1);
                    assert forall|i: int| 0 <= i < 0x4_0000 implies pd_pages(*hole)[i] == rb.1[i] by {
                        if i / 512 == index {
                            assert(i == index * 512 + i % 512) by (nonlinear_arith)
                                requires i / 512 == index, 0 <= i;
                            assert(pd_pages(*hole)[i] == pt_pages(child_new)[i % 512]);
                            assert(rb.1[index * 512 + i % 512] == rs.1[i % 512]);
                        } else {
                            assert(0 <= i / 512 < 512) by (nonlinear_arith)
                                requires 0 <= i < 0x4_0000;
                            assert(!(index * 512 <= i < index * 512 + 512)) by (nonlinear_arith)
                                requires i / 512 != index, 0 <= i;
                            assert(pd_pages(*hole)[i] == big[i]);
                        }
                    }
                    assert(pd_pages(*hole) =~= rb.1);
                }
            },
            None => {
                let mut my_next: Option<Box<Pt>> = None;
                let ghost small = pt_pages(my_next);
                proof {
                    lemma_run_block(ed, big, small, index * 512, d);
                }
                state = pt_modify_while(&mut my_next, v, editor);
                let ghost child_new = my_next;
                if my_next.is_some() {
                    let mut pd = Pd::new();
                    pd.pts.set(index, my_next);
                    *hole = Some(Box::new(pd));
                }
                proof {
                    let rb = run(ed, big, index * 512 + d, index * 512 + 512);
                    let rs = run(ed, small, d, 512);
                    assert(pt_pages(child_new) == rs.1);
                    assert forall|i: int| 0 <= i < 0x4_0000 implies pd_pages(*hole)[i] == rb.1[i] by {
                        if i / 512 == index {
                            assert(i == index * 512 + i % 512) by (nonlinear_arith)
                                requires i / 512 == index, 0 <= i;
                            assert(rb.1[index * 512 + i % 512] == rs.1[i % 512]);
                            assert(pd_pages(*hole)[i] == pt_pages(child_new)[i % 512]);
                        } else {
                            assert(0 <= i / 512 < 512) by (nonlinear_arith)
                                requires 0 <= i < 0x4_0000;
                            assert(!(index * 512 <= i < index * 512 + 512)) by (nonlinear_arith)
                                requires i / 512 != index, 0 <= i;
                            assert(pd_pages(*hole)[i] == big[i]);
                        }
                    }
                    assert(pd_pages(*hole) =~= rb.1);
                }
            },
        }
        proof {
            lemma_run_split(ed, big, cur, index * 512 + 512, 0x4_0000);
        }
        match state {
            ModifyWhileState::Continue(next) => {
                if v.pdpt_index() == next.pdpt_index() {
                    v = next;
                } else {
                    return state;
                }
            },
            _ => {
                return state;
            },
        }
    }
}

/// A page directory pointer table: 512 page directory slots.
struct Pdpt {
    pds: Vec<Option<Box<Pd>>>,
}

spec fn pdpt_wf(hole: Option<Box<Pdpt>>) -> bool {
    hole matches Some(pdpt) ==> pdpt.pds@.len() == 512 && forall|k: int| 0 <= k < 512 ==> pd_wf(#[trigger] pdpt.pds@[k])
}

spec fn pdpt_pages(hole: Option<Box<Pdpt>>) -> Seq<Page> {
    match hole {
        None => Seq::new(0x800_0000, |i: int| None),
        Some(pdpt) => Seq::new(0x800_0000, |i: int| pd_pages(pdpt.pds@[i / 0x4_0000])[i % 0x4_0000]),
    }
}

impl Pdpt {
    fn new() -> (r: Pdpt)
        ensures
            pdpt_wf(Some(Box::new(r))),
            pdpt_pages(Some(Box::new(r))) == pdpt_pages(None),
    {
        let mut pds: Vec<Option<Box<Pd>>> = Vec::new();
        let mut i: usize = 0;
        while i < 512
            invariant
                i <= 512,
                pds@.len() == i,
                forall|k: int| 0 <= k < i ==> pds@[k] is None,
            decreases 512 - i,
        {
            pds.push(None);
            i = i + 1;
        }
        let r = Pdpt { pds };
        assert(pdpt_pages(Some(Box::new(r))) =~= pdpt_pages(None));
        r
    }
}

/// Ask `editor` about the pages of the page directory pointer table slot
/// `index` from the page of `v` on, storing its answers in that slot.
#[verifier::spinoff_prover]
#[verifier::rlimit(60)]
fn pdpt_modify_slot<E: PageEditor>(hole: &mut Option<Box<Pdpt>>, v: usize, index: usize, editor: &mut E) -> (state: ModifyWhileState)
    requires
        usize::MAX == u64::MAX,
        pdpt_wf(*old(hole)),
        index < 512,
    ensures
        pdpt_wf(*final(hole)),
        ({
            let d = (v % 0x4000_0000) as int / 4096;
            let rb = run(*old(editor), pdpt_pages(*old(hole)), index * 0x4_0000 + d, index * 0x4_0000 + 0x4_0000);
            &&& *final(editor) == rb.0
            &&& pdpt_pages(*final(hole)) == rb.1
            &&& state == if rb.2 {
                ModifyWhileState::Done
            } else {
                ModifyWhileState::Continue(wrap(next_block(v as int, 0x4000_0000)) as usize)
            }
        }),
{
    let ghost big = pdpt_pages(*hole);
    let ghost ed = *editor;
    let ghost d = (v % 0x4000_0000) as int / 4096;
    let state;
    match hole.take() {
        Some(b) => {
            let mut pdpt = *b;
            let mut child: Option<Box<Pd>> = None;
            core::mem::swap(&mut child, &mut pdpt.pds[index]);
            let ghost small = pd_pages(child);
            assert(small.len() == 0x4_0000);
            proof {
                assert forall|j: int| 0 <= j < 0x4_0000 implies big[index * 0x4_0000 + j] == small[j] by {
                    assert((index * 0x4_0000 + j) / 0x4_0000 == index) by (nonlinear_arith)
                        requires 0 <= j < 0x4_0000, index >= 0;
                    assert((index * 0x4_0000 + j) % 0x4_0000 == j) by (nonlinear_arith)
                        requires 0 <= j < 0x4_0000, index >= 0;
                }
                lemma_run_block(ed, big, small, index * 0x4_0000, d);
            }
            let ghost pts0 = pdpt.pds@;
            state = pd_modify_while(&mut child, v, editor);
            let ghost child_new = child;
            core::mem::swap(&mut child, &mut pdpt.pds[index]);
            assert(pdpt.pds@ == pts0.update(index as int, child_new));
            *hole = Some(Box::new(pdpt));
            proof {
                let rb = run(ed, big, index * 0x4_0000 + d, index * 0x4_0000 + 0x4_0000);
                let rs = run(ed, small, d, 0x4_0000);
                assert(pd_pages(child_new) == rs.1);
                assert(rs.1.len() == 0x4_0000 && rb.1.len() == 0x800_0000);
                assert forall|i: int| 0 <= i < 0x800_0000 implies pdpt_pages(*hole)[i] == rb.1[i] by {
                    if i / 0x4_0000 == index {
                        assert(i == index * 0x4_0000 + i % 0x4_0000) by (nonlinear_arith)
                            requires i / 0x4_0000 == index, 0 <= i;
                        assert(pdpt_pages(*hole)[i] == pd_pages(child_new)[i % 0x4_0000]);
                        assert(rb.1[index * 0x4_0000 + i % 0x4_0000] == rs.1[i % 0x4_0000]);
                    } else {
                        assert(0 <= i / 0x4_0000 < 512) by (nonlinear_arith)
                            requires 0 <= i < 0x800_0000;
                        assert(!(index * 0x4_0000 <= i < index * 0x4_0000 + 0x4_0000)) by (nonlinear_arith)
                            requires i / 0x4_0000 != index, 0 <= i;
                        assert(pdpt_pages(*hole)[i] == big[i]);
                    }
                }
                assert(pdpt_pages(*hole) =~= rb.1);
            }
        },
        None => {
            let mut my_next: Option<Box<Pd>> = None;
            let ghost small = pd_pages(my_next);
            proof {
                lemma_run_block(ed, big, small, index * 0x4_0000, d);
            }
            state = pd_modify_while(&mut my_next, v, editor);
            let ghost child_new = my_next;
            if my_next.is_some() {
                let mut pdpt = Pdpt::new();
                pdpt.pds.set(index, my_next);
                *hole = Some(Box::new(pdpt));
            }
            proof {
                let rb = run(ed, big, index * 0x4_0000 + d, index * 0x4_0000 + 0x4_0000);
                let rs = run(ed, small, d, 0x4_0000);
                assert(pd_pages(child_new) == rs.1);
                assert(rs.1.len() == 0x4_0000 && rb.1.len() == 0x800_0000);
                assert forall|i: int| 0 <= i < 0x800_0000 implies pdpt_pages(*hole)[i] == rb.1[i] by {
                    if i / 0x4_0000 == index {
                        assert(i == index * 0x4_0000 + i % 0x4_0000) by (nonlinear_arith)
                            requires i / 0x4_0000 == index, 0 <= i;
                        assert(rb.1[index * 0x4_0000 + i % 0x4_0000] == rs.1[i % 0x4_0000]);
                        assert(pdpt_pages(*hole)[i] == pd_pages(child_new)[i % 0x4_0000]);
                    } else {
                        assert(0 <= i / 0x4_0000 < 512) by (nonlinear_arith)
                            requires 0 <= i < 0x800_0000;
                        assert(!(index * 0x4_0000 <= i < index * 0x4_0000 + 0x4_0000)) by (nonlinear_arith)
                            requires i / 0x4_0000 != index, 0 <= i;
                        assert(pdpt_pages(*hole)[i] == big[i]);
                    }
                }
                assert(pdpt_pages(*hole) =~= rb.1);
            }
        },
    }
    state
}

/// Ask `editor` about each page from `vaddr` to the end of the page
/// directory pointer table slot, storing its answers (creating tables when needed) until
/// it answers nothing.
#[verifier::spinoff_prover]
#[verifier::rlimit(40)]
fn pdpt_modify_while<E: PageEditor>(hole: &mut Option<Box<Pdpt>>, vaddr: usize, editor: &mut E) -> (r: ModifyWhileState)
    requires
        usize::MAX == u64::MAX,
        pdpt_wf(*old(hole)),
    ensures
        pdpt_wf(*final(hole)),
        ({
            let w = run(*old(editor), pdpt_pages(*old(hole)), (vaddr as int % 0x80_0000_0000) / 4096, 0x800_0000);
            &&& *final(editor) == w.0
            &&& pdpt_pages(*final(hole)) == w.1
            &&& r == if w.2 {
                ModifyWhileState::Done
            } else {
                ModifyWhileState::Continue(wrap(next_block(vaddr as int, 0x80_0000_0000)) as usize)
            }
        }),
{
    let ghost x0 = vaddr as int;
    let ghost e0 = *editor;
    let ghost s0 = pdpt_pages(*hole);
    let ghost start = (vaddr as int % 0x80_0000_0000) / 4096;
    let mut v = vaddr;
    loop
        invariant
            e0 == *old(editor),
            s0 == pdpt_pages(*old(hole)),
            x0 == vaddr as int,
            start == (vaddr as int % 0x80_0000_0000) / 4096,
            usize::MAX == u64::MAX,
            pdpt_wf(*hole),
            v as int / 0x80_0000_0000 == x0 / 0x80_0000_0000,
            v as int % 4096 == x0 % 4096,
            start <= (v as int % 0x80_0000_0000) / 4096,
            run(e0, s0, start, 0x800_0000) == run(*editor, pdpt_pages(*hole), (v as int % 0x80_0000_0000) / 4096, 0x800_0000),
        decreases 0x800_0000 - (v as int % 0x80_0000_0000) / 4096,
    {
        let index = v.pdpt_index();
        let ghost x = v as int;
        let ghost cur = (x % 0x80_0000_0000) / 4096;
        let ghost d = (x % 0x4000_0000) / 4096;
        proof {
            lemma_index(x, 0x4000_0000);
            lemma_start(x, 0x4000_0000);
            lemma_next_block(x, 0x4000_0000);
            lemma_start(x, 0x80_0000_0000);
        }
        assert(cur == index * 0x4_0000 + d);
        let ghost big = pdpt_pages(*hole);
        let ghost ed = *editor;
        let state = pdpt_modify_slot(hole, v, index, editor);
        proof {
            lemma_run_split(ed, big, cur, index * 0x4_0000 + 0x4_0000, 0x800_0000);
        }
        match state {
            ModifyWhileState::Continue(next) => {
                if v.pml4_index() == next.pml4_index() {
                    v = next;
                } else {
                    return state;
                }
            },
            _ => {
                return state;
            },
        }
    }
}

/// The top-level table: 256 page directory pointer table slots for the
/// half of the address space of its kind.
struct Pml4 {
    pdpts: Vec<Option<Box<Pdpt>>>,
    kind: Pml4Kind,
}

/// The top-level index `b` lies in the half of the address space of `kind`.
pub open spec fn in_half(kind: Pml4Kind, b: int) -> bool {
    match kind {
        Pml4Kind::User => b < 256,
        Pml4Kind::Kernel => b >= 256,
    }
}

/// The end of the pages of the half of `kind`, counted from the bottom of
/// the 48-bit space.
pub open spec fn half_end(kind: Pml4Kind) -> int {
    match kind {
        Pml4Kind::User => 0x8_0000_0000,
        Pml4Kind::Kernel => 0x10_0000_0000,
    }
}

/// The address a walk from `vaddr` reaches when it runs off the end of the
/// half of `kind`.
pub open spec fn half_exit(kind: Pml4Kind, vaddr: int) -> int {
    match kind {
        Pml4Kind::User => 0x8000_0000_0000 + vaddr % 4096,
        Pml4Kind::Kernel => vaddr % 4096,
    }
}

/// The error for an address outside the half of `kind`.
pub open spec fn range_error(kind: Pml4Kind, vaddr: usize) -> Error {
    match kind {
        Pml4Kind::User => Error::OutOfUserRange(vaddr),
        Pml4Kind::Kernel => Error::OutOfKernelRange(vaddr),
    }
}

spec fn pml4_wf(pml4: Pml4) -> bool {
    pml4.pdpts@.len() == 256 && forall|k: int| 0 <= k < 256 ==> pdpt_wf(#[trigger] pml4.pdpts@[k])
}

/// The pages of the 48-bit space, by page number; those outside the half of
/// the table are never mapped.
spec fn pml4_pages(pml4: Pml4) -> Seq<Page> {
    Seq::new(
        0x10_0000_0000,
        |i: int|
            if in_half(pml4.kind, i / 0x800_0000) {
                pdpt_pages(pml4.pdpts@[(i / 0x800_0000) % 256])[i % 0x800_0000]
            } else {
                None
            },
    )
}

impl Pml4 {
    fn new(kind: Pml4Kind) -> (r: Pml4)
        ensures
            pml4_wf(r),
            r.kind == kind,
            pml4_pages(r) == Seq::new(0x10_0000_0000, |i: int| None::<(usize, PageType)>),
    {
        let mut pdpts: Vec<Option<Box<Pdpt>>> = Vec::new();
        let mut i: usize = 0;
        while i < 256
            invariant
                i <= 256,
                pdpts@.len() == i,
                forall|k: int| 0 <= k < i ==> pdpts@[k] is None,
            decreases 256 - i,
        {
            pdpts.push(None);
            i = i + 1;
        }
        let r = Pml4 { pdpts, kind };
        assert(pml4_pages(r) =~= Seq::new(0x10_0000_0000, |i: int| None::<(usize, PageType)>));
        r
    }
}

/// The half of an address: its top-level index, or the prefix being wrong.
proof fn lemma_vaddr_ok(kind: Pml4Kind, x: int)
    requires
        usize::MAX == u64::MAX,
        0 <= x < 0x1_0000_0000_0000_0000,
    ensures
        spec_vaddr_ok(kind, x as usize) <==> (x / 0x1_0000_0000_0000 == (match kind {
            Pml4Kind::User => 0int,
            Pml4Kind::Kernel => 0xffffint,
        }) && in_half(kind, (x % 0x1_0000_0000_0000) / 0x80_0000_0000)),
{
    lemma_index(x, 0x80_0000_0000);
    let v = x as usize;
    assert(v as u64 == x);
}

/// After a top-level slot, the walk goes on at the next slot, at the same
/// offset within the page.
proof fn lemma_next_slot(x: int)
    requires
        0 <= x < 0x1_0000_0000_0000_0000,
    ensures
        (x % 0x1_0000_0000_0000) / 0x80_0000_0000 < 511 ==> wrap(next_block(x, 0x80_0000_0000)) == (x
            / 0x1_0000_0000_0000) * 0x1_0000_0000_0000 + ((x % 0x1_0000_0000_0000) / 0x80_0000_0000 + 1)
            * 0x80_0000_0000 + x % 4096,
        (x % 0x1_0000_0000_0000) / 0x80_0000_0000 == 511 && x / 0x1_0000_0000_0000 == 0xffff ==> wrap(
            next_block(x, 0x80_0000_0000),
        ) == x % 4096,
{
    let c = 0x80_0000_0000int;
    let p = 0x1_0000_0000_0000int;
    lemma_next_block(x, c);
    lemma_start(x, c);
    lemma_fundamental_div_mod(x, p);
    let b = (x % p) / c;
    if b < 511 {
        let w = next_block(x, c);
        lemma_fundamental_div_mod(w, p);
        lemma_fundamental_div_mod(w % p, c);
        lemma_start(w, c);
    }
}

/// Where the walk goes after a top-level slot: on at the start of the next
/// slot, or out of the half.
proof fn lemma_pml4_next(kind: Pml4Kind, x0: int, x: int, n: int)
    requires
        usize::MAX == u64::MAX,
        0 <= x < 0x1_0000_0000_0000_0000,
        0 <= n < 0x1_0000_0000_0000_0000,
        spec_vaddr_ok(kind, x as usize),
        x0 / 0x1_0000_0000_0000 == x / 0x1_0000_0000_0000,
        x0 % 4096 == x % 4096,
        n == wrap(next_block(x, 0x80_0000_0000)),
    ensures
        n % 4096 == x0 % 4096,
        spec_vaddr_ok(kind, n as usize) ==> n / 0x1_0000_0000_0000 == x0 / 0x1_0000_0000_0000 && (n
            % 0x1_0000_0000_0000) / 4096 == ((x % 0x1_0000_0000_0000) / 0x80_0000_0000 + 1) * 0x800_0000,
        !spec_vaddr_ok(kind, n as usize) ==> n == half_exit(kind, x0) && ((x % 0x1_0000_0000_0000)
            / 0x80_0000_0000 + 1) * 0x800_0000 == half_end(kind),
{
    lemma_vaddr_ok(kind, x);
    lemma_vaddr_ok(kind, n);
    lemma_next_slot(x);
    lemma_index(x, 0x80_0000_0000);
    let index = (x % 0x1_0000_0000_0000) / 0x80_0000_0000;
    if index < 511 {
        lemma_fundamental_div_mod_converse(
            n,
            0x1_0000_0000_0000,
            x / 0x1_0000_0000_0000,
            (index + 1) * 0x80_0000_0000 + x % 4096,
        );
        lemma_fundamental_div_mod_converse((index + 1) * 0x80_0000_0000 + x % 4096, 0x80_0000_0000, index + 1, x % 4096);
        lemma_start(n, 0x80_0000_0000);
        lemma_fundamental_div_mod_converse(n, 4096, n / 4096, x % 4096);
    } else {
        lemma_fundamental_div_mod_converse(n, 4096, 0, x % 4096);
    }
}

/// Ask `editor` about each page from `v` to the end of its top-level slot.
#[verifier::spinoff_prover]
#[verifier::rlimit(40)]
fn pml4_slot_modify<E: PageEditor>(pml4: &mut Pml4, v: usize, editor: &mut E) -> (r: ModifyWhileState)
    requires
        usize::MAX == u64::MAX,
        pml4_wf(*old(pml4)),
        spec_vaddr_ok(old(pml4).kind, v),
    ensures
        pml4_wf(*final(pml4)),
        final(pml4).kind == old(pml4).kind,
        ({
            let cur = (v as int % 0x1_0000_0000_0000) / 4096;
            let end = ((v as int % 0x1_0000_0000_0000) / 0x80_0000_0000 + 1) * 0x800_0000;
            let w = run(*old(editor), pml4_pages(*old(pml4)), cur, end);
            &&& cur < end <= half_end(old(pml4).kind)
            &&& *final(editor) == w.0
            &&& pml4_pages(*final(pml4)) == w.1
            &&& r == if w.2 {
                ModifyWhileState::Done
            } else {
                ModifyWhileState::Continue(wrap(next_block(v as int, 0x80_0000_0000)) as usize)
            }
        }),
{
    let ghost kind = pml4.kind;
    let ghost x = v as int;
    proof {
        lemma_vaddr_ok(kind, x);
    }
    let index = v.pml4_index();
    let slot = index % 256;
    let ghost cur = (x % 0x1_0000_0000_0000) / 4096;
    let ghost d = (x % 0x80_0000_0000) / 4096;
    proof {
        lemma_index(x, 0x80_0000_0000);
        lemma_start(x, 0x80_0000_0000);
    }
    assert(cur == index * 0x800_0000 + d);
    assert(in_half(kind, index as int));
    let ghost big = pml4_pages(*pml4);
    let ghost ed = *editor;
    let mut child: Option<Box<Pdpt>> = None;
    core::mem::swap(&mut child, &mut pml4.pdpts[slot]);
    let ghost small = pdpt_pages(child);
    assert(small.len() == 0x800_0000);
    proof {
        assert forall|j: int| 0 <= j < 0x800_0000 implies big[index * 0x800_0000 + j] == small[j] by {
            assert((index * 0x800_0000 + j) / 0x800_0000 == index) by (nonlinear_arith)
                requires 0 <= j < 0x800_0000, index >= 0;
            assert((index * 0x800_0000 + j) % 0x800_0000 == j) by (nonlinear_arith)
                requires 0 <= j < 0x800_0000, index >= 0;
            assert(index * 0x800_0000 + j < 0x10_0000_0000) by (nonlinear_arith)
                requires 0 <= j < 0x800_0000, index < 512;
        }
        lemma_run_block(ed, big, small, index * 0x800_0000, d);
    }
    let ghost pdpts0 = pml4.pdpts@;
    let state = pdpt_modify_while(&mut child, v, editor);
    let ghost child_new = child;
    core::mem::swap(&mut child, &mut pml4.pdpts[slot]);
    assert(pml4.pdpts@ == pdpts0.update(slot as int, child_new));
    proof {
        let rb = run(ed, big, index * 0x800_0000 + d, index * 0x800_0000 + 0x800_0000);
        let rs = run(ed, small, d, 0x800_0000);
        assert(pdpt_pages(child_new) == rs.1);
        assert(rs.1.len() == 0x800_0000 && rb.1.len() == 0x10_0000_0000);
        assert forall|i: int| 0 <= i < 0x10_0000_0000 implies pml4_pages(*pml4)[i] == rb.1[i] by {
            if i / 0x800_0000 == index {
                assert(i == index * 0x800_0000 + i % 0x800_0000) by (nonlinear_arith)
                    requires i / 0x800_0000 == index, 0 <= i;
                assert(pml4_pages(*pml4)[i] == pdpt_pages(child_new)[i % 0x800_0000]);
                assert(rb.1[index * 0x800_0000 + i % 0x800_0000] == rs.1[i % 0x800_0000]);
            } else {
                assert(0 <= i / 0x800_0000 < 512) by (nonlinear_arith)
                    requires 0 <= i < 0x10_0000_0000;
                assert(!(index * 0x800_0000 <= i < index * 0x800_0000 + 0x800_0000)) by (nonlinear_arith)
                    requires i / 0x800_0000 != index, 0 <= i;
                if in_half(kind, i / 0x800_0000) {
                    assert((i / 0x800_0000) % 256 != slot);
                }
                assert(pml4_pages(*pml4)[i] == big[i]);
            }
        }
        assert(pml4_pages(*pml4) =~= rb.1);
    }
    state
}

/// Ask `editor` about each page from `vaddr` to the end of the half of the
/// address space of the table, storing its answers (creating tables when
/// needed) until it answers nothing; an address outside the half is an
/// error.
#[verifier::spinoff_prover]
#[verifier::rlimit(40)]
fn pml4_modify_while<E: PageEditor>(pml4: &mut Pml4, vaddr: usize, editor: &mut E) -> (r: ModifyWhileState)
    requires
        usize::MAX == u64::MAX,
        pml4_wf(*old(pml4)),
    ensures
        pml4_wf(*final(pml4)),
        final(pml4).kind == old(pml4).kind,
        !spec_vaddr_ok(old(pml4).kind, vaddr) ==> r == ModifyWhileState::Error(range_error(old(pml4).kind, vaddr))
            && pml4_pages(*final(pml4)) == pml4_pages(*old(pml4)) && *final(editor) == *old(editor),
        spec_vaddr_ok(old(pml4).kind, vaddr) ==> ({
            let w = run(
                *old(editor),
                pml4_pages(*old(pml4)),
                (vaddr as int % 0x1_0000_0000_0000) / 4096,
                half_end(old(pml4).kind),
            );
            &&& *final(editor) == w.0
            &&& pml4_pages(*final(pml4)) == w.1
            &&& r == if w.2 {
                ModifyWhileState::Done
            } else {
                ModifyWhileState::Error(range_error(old(pml4).kind, half_exit(old(pml4).kind, vaddr as int) as usize))
            }
        }),
{
    let ghost x0 = vaddr as int;
    let ghost e0 = *editor;
    let ghost s0 = pml4_pages(*pml4);
    let ghost kind = pml4.kind;
    let ghost start = (x0 % 0x1_0000_0000_0000) / 4096;
    let ghost hi = half_end(kind);
    let ghost ok0 = spec_vaddr_ok(kind, vaddr);
    let mut v = vaddr;
    loop
        invariant
            usize::MAX == u64::MAX,
            e0 == *old(editor),
            s0 == pml4_pages(*old(pml4)),
            x0 == vaddr as int,
            kind == old(pml4).kind,
            start == (x0 % 0x1_0000_0000_0000) / 4096,
            hi == half_end(kind),
            ok0 == spec_vaddr_ok(kind, vaddr),
            pml4_wf(*pml4),
            pml4.kind == kind,
            v as int % 4096 == x0 % 4096,
            !ok0 ==> v == vaddr && *editor == e0 && pml4_pages(*pml4) == s0,
            ok0 && spec_vaddr_ok(kind, v) ==> v as int / 0x1_0000_0000_0000 == x0 / 0x1_0000_0000_0000
                && start <= (v as int % 0x1_0000_0000_0000) / 4096 && run(e0, s0, start, hi) == run(
                *editor,
                pml4_pages(*pml4),
                (v as int % 0x1_0000_0000_0000) / 4096,
                hi,
            ),
            ok0 && !spec_vaddr_ok(kind, v) ==> v as int == half_exit(kind, x0) && run(e0, s0, start, hi) == (
                *editor,
                pml4_pages(*pml4),
                false,
            ),
        decreases (if spec_vaddr_ok(kind, v) {
            hi - (v as int % 0x1_0000_0000_0000) / 4096 + 1
        } else {
            0
        }),
    {
        match pml4.kind {
            Pml4Kind::User => {
                if !Pml4Kind::User.vaddr_ok(v) {
                    return ModifyWhileState::Error(Error::OutOfUserRange(v));
                }
            },
            Pml4Kind::Kernel => {
                if !Pml4Kind::Kernel.vaddr_ok(v) {
                    return ModifyWhileState::Error(Error::OutOfKernelRange(v));
                }
            },
        }
        let ghost x = v as int;
        let ghost ed = *editor;
        let ghost big = pml4_pages(*pml4);
        let ghost cur = (x % 0x1_0000_0000_0000) / 4096;
        let ghost end = ((x % 0x1_0000_0000_0000) / 0x80_0000_0000 + 1) * 0x800_0000;
        let state = pml4_slot_modify(pml4, v, editor);
        proof {
            lemma_run_split(ed, big, cur, end, hi);
        }
        match state {
            ModifyWhileState::Continue(next) => {
                proof {
                    lemma_pml4_next(kind, x0, x, next as int);
                }
                v = next;
            },
            _ => {
                return state;
            },
        }
    }
}

/// A run of `remaining` pages to store: consecutive physical pages from the
/// page given, or no page at all.
#[derive(Debug, Clone, Copy)]
pub struct PageRun {
    pub page: Page,
    pub remaining: usize,
}

/// The page a run stores `j` pages after its first.
pub open spec fn run_page(page: Page, j: int) -> Page {
    match page {
        Some((paddr, t)) => Some(((paddr + j * 4096) as usize, t)),
        None => None,
    }
}

impl PageEditor for PageRun {
    open spec fn answer(&self, page: Page) -> Option<Page> {
        if self.remaining > 0 {
            Some(self.page)
        } else {
            None
        }
    }

    open spec fn after(&self, page: Page) -> PageRun {
        if self.remaining > 0 {
            PageRun {
                page: match self.page {
                    Some((paddr, t)) => Some((paddr.wrapping_add(4096), t)),
                    None => None,
                },
                remaining: (self.remaining - 1) as usize,
            }
        } else {
            *self
        }
    }

    fn edit(&mut self, page: Page) -> (r: Option<Page>) {
        if self.remaining > 0 {
            let current = self.page;
            self.page = match current {
                Some((paddr, t)) => Some((paddr.wrapping_add(PAGE_SIZE), t)),
                None => None,
            };
            self.remaining = self.remaining - 1;
            Some(current)
        } else {
            None
        }
    }
}

/// A run over `s[i..hi]` stores the run's pages from `i` on, and stops
/// if it ends before `hi`.
pub proof fn lemma_page_run(e: PageRun, s: Seq<Page>, i: int, hi: int)
    requires
        0 <= i <= hi <= s.len(),
        e.page matches Some((paddr, t)) ==> paddr + e.remaining * 4096 <= usize::MAX,
    ensures
        ({
            let w = run(e, s, i, hi);
            &&& w.2 == (i + e.remaining < hi)
            &&& w.1.len() == s.len()
            &&& forall|k: int|
                0 <= k < s.len() ==> #[trigger] w.1[k] == if i <= k < i + e.remaining && k < hi {
                    stored(run_page(e.page, k - i))
                } else {
                    s[k]
                }
        }),
    decreases hi - i,
{
    if i < hi && e.remaining > 0 {
        let e2 = e.after(s[i]);
        let s2 = s.update(i, stored(e.page));
        lemma_page_run(e2, s2, i + 1, hi);
        let w = run(e, s, i, hi);
        assert forall|k: int| 0 <= k < s.len() implies #[trigger] w.1[k] == if i <= k < i + e.remaining && k < hi {
            stored(run_page(e.page, k - i))
        } else {
            s[k]
        } by {
            if k == i {
                match e.page {
                    Some((paddr, t)) => {
                        assert(run_page(e.page, 0) == e.page);
                    },
                    None => {},
                }
            } else if i < k < i + e.remaining && k < hi {
                match e.page {
                    Some((paddr, t)) => {
                        assert(run_page(e2.page, k - (i + 1)) == run_page(e.page, k - i));
                    },
                    None => {},
                }
            }
        }
    }
}

/// The page tables of one address space.
pub struct Pageset {
    pml4: Box<Pml4>,
    kernel: bool,
}

impl Pageset {
    #[verifier::type_invariant]
    spec fn inv(self) -> bool {
        &&& pml4_wf(*self.pml4)
        &&& self.kernel == (self.pml4.kind == Pml4Kind::Kernel)
    }

    /// The page of each page number of the 48-bit space.
    pub closed spec fn pages(&self) -> Seq<Page> {
        pml4_pages(*self.pml4)
    }

    pub closed spec fn kind(&self) -> Pml4Kind {
        self.pml4.kind
    }

    /// A user pageset mapping nothing.
    pub fn new() -> (r: Pageset)
        ensures
            r.kind() == Pml4Kind::User,
            r.pages() == Seq::new(0x10_0000_0000, |i: int| None::<(usize, PageType)>),
    {
        Pageset { pml4: Box::new(Pml4::new(Pml4Kind::User)), kernel: false }
    }

    /// The kernel pageset, with the boot mappings in place.
    pub fn new_kernel(init_memory_map: &InitMemoryMap) -> (r: Pageset)
        requires
            usize::MAX == u64::MAX,
            boot_maps_fit(init_memory_map.boot_mappings@),
        ensures
            r.kind() == Pml4Kind::Kernel,
            r.pages() == boot_pages(init_memory_map.boot_mappings@, init_memory_map.boot_mappings@.len() as int),
    {
        let mut pageset = Pageset { pml4: Box::new(Pml4::new(Pml4Kind::Kernel)), kernel: true };
        let maps = &init_memory_map.boot_mappings;
        let mut i: usize = 0;
        assert(pageset.pages() =~= boot_pages(maps@, 0));
        while i < maps.len()
            invariant
                usize::MAX == u64::MAX,
                i <= maps@.len(),
                maps@ == init_memory_map.boot_mappings@,
                boot_maps_fit(maps@),
                pageset.kind() == Pml4Kind::Kernel,
                pageset.pages() == boot_pages(maps@, i as int),
            decreases maps@.len() - i,
        {
            let (vaddr, pages, page) = maps[i];
            assert(boot_map_fits(maps@[i as int]));
            let r = match page {
                Some((paddr, page_type)) => pageset.map_pages_with_type(vaddr, paddr, pages, page_type),
                None => pageset.unmap_pages(vaddr, pages),
            };
            proof {
                assert(boot_pages(maps@, i + 1) == with_run(
                    boot_pages(maps@, i as int),
                    (vaddr as int % 0x1_0000_0000_0000) / 4096,
                    0x10_0000_0000,
                    page,
                    pages as int,
                ));
            }
            i = i + 1;
        }
        pageset
    }

    pub fn page_size() -> (r: usize)
        ensures
            r == PAGE_SIZE,
    {
        PAGE_SIZE
    }

    pub fn is_kernel_pageset(&self) -> (r: bool)
        ensures
            r == (self.kind() == Pml4Kind::Kernel),
    {
        proof {
            use_type_invariant(self);
        }
        self.kernel
    }

    /// Ask `editor` about each page from `vaddr` on, storing its answers,
    /// until it answers nothing; running off the half of the address space
    /// of the pageset, or starting outside it, is an error.
    pub fn modify_while<E: PageEditor>(&mut self, vaddr: usize, editor: E) -> (r: Result<(), Error>)
        requires
            usize::MAX == u64::MAX,
        ensures
            final(self).kind() == old(self).kind(),
            !spec_vaddr_ok(old(self).kind(), vaddr) ==> r == Err::<(), Error>(range_error(old(self).kind(), vaddr))
                && final(self).pages() == old(self).pages(),
            spec_vaddr_ok(old(self).kind(), vaddr) ==> ({
                let w = run(
                    editor,
                    old(self).pages(),
                    (vaddr as int % 0x1_0000_0000_0000) / 4096,
                    half_end(old(self).kind()),
                );
                &&& final(self).pages() == w.1
                &&& r == if w.2 {
                    Ok::<(), Error>(())
                } else {
                    Err(range_error(old(self).kind(), half_exit(old(self).kind(), vaddr as int) as usize))
                }
            }),
    {
        proof {
            use_type_invariant(&*self);
        }
        let mut editor = editor;
        let mut pml4 = Box::new(Pml4::new(self.pml4.kind));
        core::mem::swap(&mut pml4, &mut self.pml4);
        let state = pml4_modify_while(&mut *pml4, vaddr, &mut editor);
        core::mem::swap(&mut pml4, &mut self.pml4);
        state.into_result()
    }
    /// The page at `vaddr`; nothing outside the half of the pageset.
    pub fn get(&self, vaddr: usize) -> (r: Page)
        requires
            usize::MAX == u64::MAX,
        ensures
            r matches Some((paddr, _)) ==> paddr <= 0xffff_ffff_f000,
            r == if spec_vaddr_ok(self.kind(), vaddr) {
                self.pages()[(vaddr as int % 0x1_0000_0000_0000) / 4096]
            } else {
                None
            },
    {
        proof {
            use_type_invariant(self);
        }
        if !self.pml4.kind.vaddr_ok(vaddr) {
            return None;
        }
        let ghost x = vaddr as int;
        let ghost kind = self.pml4.kind;
        proof {
            lemma_vaddr_ok(kind, x);
            lemma_index(x, 0x80_0000_0000);
            lemma_index(x, 0x4000_0000);
            lemma_index(x, 0x20_0000);
            lemma_index(x, 4096);
            lemma_start(x, 0x80_0000_0000);
            lemma_start(x, 0x4000_0000);
            lemma_start(x, 0x20_0000);
        }
        let i4 = vaddr.pml4_index();
        let i3 = vaddr.pdpt_index();
        let i2 = vaddr.pd_index();
        let i1 = vaddr.pt_index();
        let ghost cur = (x % 0x1_0000_0000_0000) / 4096;
        let ghost j3 = (x % 0x80_0000_0000) / 4096;
        let ghost j2 = (x % 0x4000_0000) / 4096;
        let ghost j1 = (x % 0x20_0000) / 4096;
        proof {
            lemma_fundamental_div_mod_converse(cur, 0x800_0000, i4 as int, j3);
            lemma_fundamental_div_mod_converse(j3, 0x4_0000, i3 as int, j2);
            lemma_fundamental_div_mod_converse(j2, 512, i2 as int, j1);
            assert(in_half(kind, i4 as int));
        }
        match &self.pml4.pdpts[i4 % 256] {
            None => None,
            Some(pdpt) => match &pdpt.pds[i3] {
                None => None,
                Some(pd) => match &pd.pts[i2] {
                    None => None,
                    Some(pt) => {
                        let page = pt.get(i1);
                        proof {
                            let e = pt.entries()[i1 as int];
                            assert(e & 0x0000_ffff_ffff_f000u64 <= 0x0000_ffff_ffff_f000u64) by (bit_vector);
                        }
                        page
                    },
                },
            },
        }
    }

    /// The physical address `vaddr` maps to, if its page is mapped.
    pub open spec fn translated(&self, vaddr: usize) -> Option<usize> {
        match (if spec_vaddr_ok(self.kind(), vaddr) {
            self.pages()[(vaddr as int % 0x1_0000_0000_0000) / 4096]
        } else {
            None
        }) {
            Some((paddr, _)) => Some((paddr + vaddr % 4096) as usize),
            None => None,
        }
    }

    /// The physical address `vaddr` maps to.
    pub fn lookup(&self, vaddr: usize) -> (r: Option<usize>)
        requires
            usize::MAX == u64::MAX,
        ensures
            r == self.translated(vaddr),
    {
        match self.get(vaddr) {
            Some((paddr, _)) => {
                Some(paddr + vaddr % PAGE_SIZE)
            },
            None => None,
        }
    }

    /// Map `pages` consecutive physical pages from `paddr` at `vaddr`.
    pub fn map_pages_with_type(&mut self, vaddr: usize, paddr: usize, pages: usize, page_type: PageType) -> (r: Result<(), Error>)
        requires
            usize::MAX == u64::MAX,
            paddr + pages * 4096 <= usize::MAX,
        ensures
            final(self).kind() == old(self).kind(),
            run_outcome(*old(self), *final(self), vaddr, Some((paddr, page_type)), pages as int, r),
    {
        let ghost old_self = *self;
        let e = PageRun { page: Some((paddr, page_type)), remaining: pages };
        let r = self.modify_while(vaddr, e);
        proof {
            if spec_vaddr_ok(old_self.kind(), vaddr) {
                let i = (vaddr as int % 0x1_0000_0000_0000) / 4096;
                lemma_page_run(e, old_self.pages(), i, half_end(old_self.kind()));
                assert(run(e, old_self.pages(), i, half_end(old_self.kind())).1 =~= with_run(
                    old_self.pages(),
                    i,
                    half_end(old_self.kind()),
                    Some((paddr, page_type)),
                    pages as int,
                ));
            }
        }
        r
    }

    /// Unmap `pages` pages at `vaddr`.
    pub fn unmap_pages(&mut self, vaddr: usize, pages: usize) -> (r: Result<(), Error>)
        requires
            usize::MAX == u64::MAX,
        ensures
            final(self).kind() == old(self).kind(),
            run_outcome(*old(self), *final(self), vaddr, None, pages as int, r),
    {
        let ghost old_self = *self;
        let e = PageRun { page: None, remaining: pages };
        let r = self.modify_while(vaddr, e);
        proof {
            if spec_vaddr_ok(old_self.kind(), vaddr) {
                let i = (vaddr as int % 0x1_0000_0000_0000) / 4096;
                lemma_page_run(e, old_self.pages(), i, half_end(old_self.kind()));
                assert(run(e, old_self.pages(), i, half_end(old_self.kind())).1 =~= with_run(
                    old_self.pages(),
                    i,
                    half_end(old_self.kind()),
                    None,
                    pages as int,
                ));
            }
        }
        r
    }

    /// Store one page at `vaddr`.
    pub fn set(&mut self, vaddr: usize, page: Page) -> (r: Result<(), Error>)
        requires
            usize::MAX == u64::MAX,
            page matches Some((paddr, t)) ==> paddr + 4096 <= usize::MAX,
        ensures
            final(self).kind() == old(self).kind(),
            run_outcome(*old(self), *final(self), vaddr, page, 1, r),
    {
        let ghost old_self = *self;
        let e = PageRun { page, remaining: 1 };
        let r = self.modify_while(vaddr, e);
        proof {
            if spec_vaddr_ok(old_self.kind(), vaddr) {
                let i = (vaddr as int % 0x1_0000_0000_0000) / 4096;
                lemma_page_run(e, old_self.pages(), i, half_end(old_self.kind()));
                assert(run(e, old_self.pages(), i, half_end(old_self.kind())).1 =~= with_run(
                    old_self.pages(),
                    i,
                    half_end(old_self.kind()),
                    page,
                    1,
                ));
            }
        }
        r
    }

    /// Map the physical page `paddr` at `vaddr`.
    pub fn map(&mut self, vaddr: usize, paddr: usize, page_type: PageType) -> (r: Result<(), Error>)
        requires
            usize::MAX == u64::MAX,
            paddr + 4096 <= usize::MAX,
        ensures
            final(self).kind() == old(self).kind(),
            run_outcome(*old(self), *final(self), vaddr, Some((paddr, page_type)), 1, r),
    {
        self.set(vaddr, Some((paddr, page_type)))
    }

    /// Unmap the page at `vaddr`.
    pub fn unmap(&mut self, vaddr: usize) -> (r: Result<(), Error>)
        requires
            usize::MAX == u64::MAX,
        ensures
            final(self).kind() == old(self).kind(),
            run_outcome(*old(self), *final(self), vaddr, None, 1, r),
    {
        self.set(vaddr, None)
    }
}

/// The pages after storing a run of `n` pages from page number `i` on,
/// cut off at `hi`.
pub open spec fn with_run(s: Seq<Page>, i: int, hi: int, page: Page, n: int) -> Seq<Page> {
    Seq::new(
        s.len(),
        |k: int|
            if i <= k < i + n && k < hi {
                stored(run_page(page, k - i))
            } else {
                s[k]
            },
    )
}

/// What storing a run of `n` pages from `vaddr` does: nothing and an
/// error outside the half of the pageset; else the pages stored, up to the
/// end of the half, and an error if the run reaches that end.
pub open spec fn run_outcome(before: Pageset, after: Pageset, vaddr: usize, page: Page, n: int, r: Result<(), Error>) -> bool {
    let kind = before.kind();
    let i = (vaddr as int % 0x1_0000_0000_0000) / 4096;
    if !spec_vaddr_ok(kind, vaddr) {
        r == Err::<(), Error>(range_error(kind, vaddr)) && after.pages() == before.pages()
    } else {
        &&& after.pages() == with_run(before.pages(), i, half_end(kind), page, n)
        &&& r == if i + n < half_end(kind) {
            Ok::<(), Error>(())
        } else {
            Err(range_error(kind, half_exit(kind, vaddr as int) as usize))
        }
    }
}

/// A boot mapping lies in the kernel half and ends before its top.
pub open spec fn boot_map_fits(m: (usize, usize, Page)) -> bool {
    &&& spec_vaddr_ok(Pml4Kind::Kernel, m.0)
    &&& (m.0 as int % 0x1_0000_0000_0000) / 4096 + m.1 < 0x10_0000_0000
    &&& m.2 matches Some((paddr, t)) ==> paddr + m.1 * 4096 <= usize::MAX
}

pub open spec fn boot_maps_fit(maps: Seq<(usize, usize, Page)>) -> bool {
    forall|i: int| 0 <= i < maps.len() ==> boot_map_fits(#[trigger] maps[i])
}

/// The kernel pages after the first `n` boot mappings.
pub open spec fn boot_pages(maps: Seq<(usize, usize, Page)>, n: int) -> Seq<Page>
    decreases n,
{
    if n <= 0 {
        Seq::new(0x10_0000_0000, |i: int| None)
    } else {
        let m = maps[n - 1];
        with_run(boot_pages(maps, n - 1), (m.0 as int % 0x1_0000_0000_0000) / 4096, 0x10_0000_0000, m.2, m.1 as int)
    }
}

/// Storing one page at an address in the half of a pageset makes the page
/// at that address what the entry keeps of it, and leaves every other page
/// as it was.
pub proof fn law_get_after_set(before: Pageset, after: Pageset, vaddr: usize, page: Page, r: Result<(), Error>)
    requires
        usize::MAX == u64::MAX,
        run_outcome(before, after, vaddr, page, 1, r),
        spec_vaddr_ok(before.kind(), vaddr),
    ensures
        after.pages()[(vaddr as int % 0x1_0000_0000_0000) / 4096] == stored(page),
        forall|k: int|
            0 <= k < after.pages().len() && k != (vaddr as int % 0x1_0000_0000_0000) / 4096 ==> #[trigger] after.pages()[k]
                == before.pages()[k],
{
    let i = (vaddr as int % 0x1_0000_0000_0000) / 4096;
    assert(i < half_end(before.kind())) by {
        lemma_vaddr_ok(before.kind(), vaddr as int);
        lemma_index(vaddr as int, 0x80_0000_0000);
        lemma_start(vaddr as int, 0x80_0000_0000);
    }
    assert(run_page(page, 0) == page);
}

/// The physical address of the kernel address `vaddr`: looked up in the
/// kernel pageset once paging is initialized, and read off the initial
/// identity map of low memory before.
pub fn safe_lookup(initialized: bool, kernel: &Pageset, vaddr: usize) -> (r: Option<usize>)
    requires
        usize::MAX == u64::MAX,
    ensures
        r == if initialized {
            kernel.translated(vaddr)
        } else if KERNEL_OFFSET + KERNEL_LOW_START <= vaddr < KERNEL_OFFSET + KERNEL_LOW_END {
            Some((vaddr - KERNEL_OFFSET) as usize)
        } else {
            None
        },
{
    if initialized {
        kernel.lookup(vaddr)
    } else {
        let map_start = KERNEL_OFFSET as usize + KERNEL_LOW_START as usize;
        let map_end = KERNEL_OFFSET as usize + KERNEL_LOW_END as usize;
        if vaddr >= map_start && vaddr < map_end {
            Some(vaddr - KERNEL_OFFSET as usize)
        } else {
            None
        }
    }
}

} // verus!
