//! Reading user memory safely: the pages are checked to be mapped and
//! accessible to the user before anything is read.

use vstd::prelude::*;

use core::marker::PhantomData;

use crate::c_ffi::CStr;
use crate::paging::tree::Pageset;
use crate::paging::x86_64::spec_vaddr_ok;
use crate::paging::{Page, PAGE_SIZE};
use crate::util::{align_down, spec_align_down};

verus! {

/// Why user memory could not be read.
#[derive(Debug, Clone, Copy, PartialEq, Eq, Structural)]
pub enum Error {
    /// Encountered an inaccessible page while reading from a user pointer.
    InaccessiblePage,
    /// Encountered invalid data while reading from a user pointer.
    UnsafeData,
    /// The destination buffer is too small to hold the user-provided data.
    BufferTooSmall,
}

/// A pointer handed over by user code, to be read through only after its
/// pages are checked.
#[derive(Debug)]
pub struct UserPtr<T> {
    addr: usize,
    marker: PhantomData<T>,
}

/// The page holding `vaddr` in the pageset; nothing outside its half.
pub open spec fn page_at(p: Pageset, vaddr: usize) -> Page {
    if spec_vaddr_ok(p.kind(), vaddr) {
        p.pages()[(vaddr as int % 0x1_0000_0000_0000) / 4096]
    } else {
        None
    }
}

/// The page holding `vaddr` is mapped and the user may access it.
pub open spec fn user_page(p: Pageset, vaddr: int) -> bool {
    0 <= vaddr <= usize::MAX && (page_at(p, vaddr as usize) matches Some((_, t)) && t.spec_is_user())
}

impl<T> UserPtr<T> {
    /// The address the pointer holds.
    pub closed spec fn spec_addr(&self) -> usize {
        self.addr
    }

    /// A user pointer to `addr`.
    pub fn from_addr(addr: usize) -> (r: UserPtr<T>)
        ensures
            r.spec_addr() == addr,
    {
        UserPtr { addr, marker: PhantomData }
    }

    pub fn addr(&self) -> (r: usize)
        ensures
            r == self.spec_addr(),
    {
        self.addr
    }

    /// Check that the pages holding `bytes` bytes from the pointer are
    /// mapped and accessible to the user, before they are read: every page
    /// from the one holding the first byte through the one holding the last.
    pub fn check_pages(&self, pageset: &Pageset, bytes: usize) -> (r: Result<(), Error>)
        requires
            usize::MAX == u64::MAX,
            self.spec_addr() + bytes <= usize::MAX + 1,
        ensures
            r is Ok <==> forall|k: int|
                0 <= k < pages_spanned(self.spec_addr() as int, bytes as int) ==> #[trigger] user_page(
                    *pageset,
                    spec_align_down(self.spec_addr() as int, PAGE_SIZE as int) + k * PAGE_SIZE,
                ),
            r is Err ==> r == Err::<(), Error>(Error::InaccessiblePage),
    {
        if bytes == 0 {
            return Ok(());
        }
        let min_vaddr = self.addr;
        let max_vaddr = self.addr + (bytes - 1);
        let min_vaddr_page = align_down(min_vaddr, PAGE_SIZE);
        let max_vaddr_page = align_down(max_vaddr, PAGE_SIZE);
        proof {
            crate::util::lemma_align_down_bounds(min_vaddr as int, PAGE_SIZE as int);
            crate::util::lemma_align_down_bounds(max_vaddr as int, PAGE_SIZE as int);
            crate::util::lemma_align_down_monotone(min_vaddr as int, max_vaddr as int, PAGE_SIZE as int);
        }
        let expected_pages = (max_vaddr_page - min_vaddr_page) / PAGE_SIZE + 1;
        // Walk the pageset: every page mapped and accessible to the user.
        let mut k: usize = 0;
        while k < expected_pages
            invariant
                usize::MAX == u64::MAX,
                min_vaddr_page == spec_align_down(self.spec_addr() as int, PAGE_SIZE as int),
                min_vaddr_page <= max_vaddr_page,
                max_vaddr_page <= usize::MAX,
                (max_vaddr_page - min_vaddr_page) % (PAGE_SIZE as int) == 0,
                k <= expected_pages,
                expected_pages == pages_spanned(self.spec_addr() as int, bytes as int),
                expected_pages == (max_vaddr_page - min_vaddr_page) / PAGE_SIZE as int + 1,
                forall|j: int| 0 <= j < k ==> #[trigger] user_page(*pageset, min_vaddr_page + j * PAGE_SIZE),
            decreases expected_pages - k,
        {
            proof {
                assert(k * 4096 <= max_vaddr_page - min_vaddr_page) by (nonlinear_arith)
                    requires
                        k < expected_pages,
                        expected_pages == (max_vaddr_page - min_vaddr_page) / 4096 + 1,
                        (max_vaddr_page - min_vaddr_page) % 4096 == 0,
                        min_vaddr_page <= max_vaddr_page,
                ;
            }
            let page = min_vaddr_page + k * PAGE_SIZE;
            let found = pageset.get(page);
            match found {
                Some((_, page_type)) => {
                    if !page_type.is_user() {
                        proof {
                            assert(!user_page(*pageset, min_vaddr_page + k * PAGE_SIZE));
                        }
                        return Err(Error::InaccessiblePage);
                    }
                },
                None => {
                    proof {
                        assert(!user_page(*pageset, min_vaddr_page + k * PAGE_SIZE));
                    }
                    return Err(Error::InaccessiblePage);
                },
            }
            proof {
                assert(user_page(*pageset, min_vaddr_page + k * PAGE_SIZE));
            }
            k = k + 1;
        }
        Ok(())
    }
}

/// The number of pages that `bytes` bytes from `addr` touch: those from the
/// page holding the first byte through the page holding the last.
pub open spec fn pages_spanned(addr: int, bytes: int) -> int {
    if bytes <= 0 {
        0
    } else {
        (spec_align_down(addr + bytes - 1, PAGE_SIZE as int) - spec_align_down(addr, PAGE_SIZE as int)) / PAGE_SIZE as int
            + 1
    }
}

/// Byte `i` from `addr` was read as `b`: its page is accessible to the user,
/// and `mem` gave `b` for its address.
pub open spec fn byte_read<F: Fn(usize) -> u8>(p: Pageset, mem: F, addr: int, i: int, b: u8) -> bool {
    &&& user_page(p, spec_align_down(addr + i, PAGE_SIZE as int))
    &&& call_ensures(mem, ((addr + i) as usize,), b)
}

/// The first `n` bytes of `buf` were read from `addr` on, and none is NUL.
pub open spec fn read_nonzero<F: Fn(usize) -> u8>(p: Pageset, mem: F, addr: int, buf: Seq<u8>, n: int) -> bool {
    forall|i: int| 0 <= i < n ==> byte_read(p, mem, addr, i, #[trigger] buf[i]) && buf[i] != 0
}

/// The address `a` exists and its page is accessible to the user.
pub open spec fn next_readable(p: Pageset, a: int) -> bool {
    a <= usize::MAX && user_page(p, spec_align_down(a, PAGE_SIZE as int))
}

impl UserPtr<u8> {
    /// Read a C string from user memory into `buffer`: bytes are read one
    /// at a time from the pointer on, each page checked to be accessible to
    /// the user before it is read, until a NUL is copied. `mem` reads a byte
    /// of memory.
    pub fn read_c_string<'a, F: Fn(usize) -> u8>(&self, pageset: &Pageset, buffer: &'a mut [u8], mem: &F) -> (r: Result<
        CStr<'a>,
        Error,
    >)
        requires
            usize::MAX == u64::MAX,
            forall|a: usize| #[trigger] call_requires(*mem, (a,)),
        ensures
            final(buffer)@.len() == old(buffer)@.len(),
            match r {
                Ok(s) => exists|n: int|
                    1 <= n <= old(buffer)@.len() && #[trigger] read_nonzero(
                        *pageset,
                        *mem,
                        self.spec_addr() as int,
                        final(buffer)@,
                        n - 1,
                    ) && byte_read(*pageset, *mem, self.spec_addr() as int, n - 1, final(buffer)@[n - 1])
                        && final(buffer)@[n - 1] == 0 && s.buffer() == final(buffer)@.take(n),
                Err(Error::BufferTooSmall) => read_nonzero(
                    *pageset,
                    *mem,
                    self.spec_addr() as int,
                    final(buffer)@,
                    old(buffer)@.len() as int,
                ) && next_readable(*pageset, self.spec_addr() + old(buffer)@.len()),
                Err(Error::InaccessiblePage) => exists|n: int|
                    0 <= n <= old(buffer)@.len() && #[trigger] read_nonzero(
                        *pageset,
                        *mem,
                        self.spec_addr() as int,
                        final(buffer)@,
                        n,
                    ) && !next_readable(*pageset, self.spec_addr() + n),
                Err(Error::UnsafeData) => false,
            },
    {
        let min_vaddr = self.addr;
        let min_vaddr_page = align_down(min_vaddr, PAGE_SIZE);
        let mut size: usize = 0;
        let mut page_base = min_vaddr_page;
        loop
            invariant
                usize::MAX == u64::MAX,
                forall|a: usize| #[trigger] call_requires(*mem, (a,)),
                min_vaddr == self.spec_addr(),
                buffer@.len() == old(buffer)@.len(),
                size <= buffer@.len(),
                min_vaddr + size <= usize::MAX,
                page_base <= min_vaddr + size < page_base + PAGE_SIZE,
                page_base == spec_align_down(min_vaddr + size, PAGE_SIZE as int),
                page_base % PAGE_SIZE == 0,
                read_nonzero(*pageset, *mem, min_vaddr as int, buffer@, size as int),
            decreases usize::MAX - page_base,
        {
            let found = pageset.get(page_base);
            let accessible = match found {
                Some((_, page_type)) => page_type.is_user(),
                None => false,
            };
            if !accessible {
                proof {
                    assert(!next_readable(*pageset, min_vaddr + size));
                }
                return Err(Error::InaccessiblePage);
            }
            // Read the rest of this page.
            loop
                invariant
                    usize::MAX == u64::MAX,
                    forall|a: usize| #[trigger] call_requires(*mem, (a,)),
                    min_vaddr == self.spec_addr(),
                    buffer@.len() == old(buffer)@.len(),
                    size <= buffer@.len(),
                    min_vaddr + size <= usize::MAX,
                    page_base <= min_vaddr + size <= page_base + PAGE_SIZE,
                    page_base % PAGE_SIZE == 0,
                    user_page(*pageset, page_base as int),
                    read_nonzero(*pageset, *mem, min_vaddr as int, buffer@, size as int),
                ensures
                    buffer@.len() == old(buffer)@.len(),
                    size <= buffer@.len(),
                    min_vaddr + size == page_base + PAGE_SIZE,
                    read_nonzero(*pageset, *mem, min_vaddr as int, buffer@, size as int),
                decreases page_base + PAGE_SIZE - (min_vaddr + size),
            {
                let vaddr = min_vaddr + size;
                if vaddr - page_base >= PAGE_SIZE {
                    break;
                }
                proof {
                    vstd::arithmetic::div_mod::lemma_fundamental_div_mod_converse(
                        vaddr as int,
                        PAGE_SIZE as int,
                        page_base as int / PAGE_SIZE as int,
                        vaddr - page_base,
                    );
                }
                if buffer.len() <= size {
                    return Err(Error::BufferTooSmall);
                }
                let byte = mem(vaddr);
                let ghost before = buffer@;
                buffer[size] = byte;
                proof {
                    assert(byte_read(*pageset, *mem, min_vaddr as int, size as int, byte));
                    assert forall|i: int| 0 <= i < size implies byte_read(*pageset, *mem, min_vaddr as int, i, #[trigger] buffer@[i])
                        && buffer@[i] != 0 by {
                        assert(buffer@[i] == before[i]);
                    }
                }
                size = size + 1;
                if byte == 0 {
                    // End of the C string.
                    let b: &'a [u8] = buffer;
                    let (head, _) = b.split_at(size);
                    proof {
                        assert(head@ =~= b@.take(size as int));
                        assert(read_nonzero(*pageset, *mem, min_vaddr as int, b@, size - 1));
                        assert(byte_read(*pageset, *mem, min_vaddr as int, size - 1, b@[size - 1]));
                    }
                    return Ok(CStr::new(head));
                }
                if vaddr == usize::MAX {
                    // The end of the address space.
                    proof {
                        assert(read_nonzero(*pageset, *mem, min_vaddr as int, buffer@, size as int));
                        assert(!next_readable(*pageset, min_vaddr + size));
                    }
                    return Err(Error::InaccessiblePage);
                }
            }
            if page_base > usize::MAX - PAGE_SIZE {
                proof {
                    assert(!next_readable(*pageset, min_vaddr + size));
                }
                return Err(Error::InaccessiblePage);
            }
            page_base = page_base + PAGE_SIZE;
        }
    }
}

} // verus!
