//! The content mutator: a cheap in-place change of the write buffer, so that the
//! blocks written in successive iterations differ.
//!
//! The buffer is cut into pages. In every page the byte at position
//! `index mod page` takes up, by exclusive or, the byte at position
//! `(index + 1) mod page`. A page size of zero makes the whole buffer one page.
//!
//! The transform is not idempotent. With pages of two bytes or more the byte that
//! is read is never the byte that is written, so a second call with the same
//! index adds the same byte once more and thereby restores the buffer.

use vstd::prelude::*;
use vstd::arithmetic::div_mod::{
    lemma_fundamental_div_mod, lemma_fundamental_div_mod_converse, lemma_mod_bound,
    lemma_small_mod,
};
use vstd::arithmetic::power2::{
    is_pow2, lemma_pow2_adds, lemma_pow2_pos, lemma_pow2_strictly_increases, pow2,
};
use crate::power2::{
    lemma_mask_is_mod, lemma_pow2_exponent, lemma_pow2_positive, lemma_wrap_keeps_mod, word_range,
};

verus! {

/// The size of a page: `pagesize`, or the whole buffer where `pagesize` is zero.
pub open spec fn page_len(len: nat, pagesize: u64) -> int {
    if pagesize == 0 {
        len as int
    } else {
        pagesize as int
    }
}

/// The position within each page that is written at iteration `index`.
pub open spec fn this_position(len: nat, pagesize: u64, index: nat) -> int {
    index as int % page_len(len, pagesize)
}

/// The position within each page that is read at iteration `index`.
pub open spec fn next_position(len: nat, pagesize: u64, index: nat) -> int {
    (index as int + 1) % page_len(len, pagesize)
}

/// The buffer after one mutation at iteration `index`.
pub open spec fn scrambled(data: Seq<u8>, pagesize: u64, index: nat) -> Seq<u8> {
    let page = page_len(data.len(), pagesize);
    let this = this_position(data.len(), pagesize, index);
    let next = next_position(data.len(), pagesize, index);
    Seq::new(
        data.len(),
        |i: int|
            if i % page == this {
                data[i] ^ data[i - this + next]
            } else {
                data[i]
            },
    )
}

/// The buffers and page sizes that the mutator takes: the length of the buffer
/// is a power of two, and the page size is zero or a power of two that does not
/// exceed it.
pub open spec fn scramble_input(len: nat, pagesize: u64) -> bool {
    &&& is_pow2(len as int)
    &&& pagesize != 0 ==> is_pow2(pagesize as int) && pagesize <= len
}

/// A power of two divides every power of two that is not smaller.
pub proof fn lemma_pow2_divides(small: int, large: int)
    requires
        is_pow2(small),
        is_pow2(large),
        small <= large,
    ensures
        small > 0,
        large % small == 0,
        large == small * (large / small),
{
    let i = lemma_pow2_exponent(small);
    let j = lemma_pow2_exponent(large);
    lemma_pow2_pos(i);
    if j < i {
        lemma_pow2_strictly_increases(j, i);
    }
    let rest = (j - i) as nat;
    lemma_pow2_adds(i, rest);
    lemma_pow2_pos(rest);
    lemma_fundamental_div_mod_converse(large, small, pow2(rest) as int, 0);
}

/// The buffer when only the pages that end at or before `limit` have been mutated.
spec fn scrambled_below(data: Seq<u8>, pagesize: u64, index: nat, limit: int) -> Seq<u8> {
    let page = page_len(data.len(), pagesize);
    let this = this_position(data.len(), pagesize, index);
    let next = next_position(data.len(), pagesize, index);
    Seq::new(
        data.len(),
        |i: int|
            if i < limit && i % page == this {
                data[i] ^ data[i - this + next]
            } else {
                data[i]
            },
    )
}

/// Within page number `p`, the only position with remainder `r` is `p * page + r`.
proof fn lemma_position_in_page(i: int, p: int, page: int, r: int)
    requires
        page > 0,
        0 <= r < page,
        p >= 0,
        p * page <= i < p * page + page,
    ensures
        i % page == i - p * page,
        (i % page == r) <==> i == p * page + r,
{
    lemma_fundamental_div_mod_converse(i, page, p, i - p * page);
}

/// Mutates `data` in place for the iteration with the index `offset`: in every
/// page the byte at the written position takes up the byte at the read position.
/// No buffer is allocated. A second call with the same index does not leave the
/// buffer as the first call left it; see `lemma_scramble_not_idempotent`.
pub fn xor_scramble(data: &mut Vec<u8>, pagesize: u64, offset: u64)
    requires
        scramble_input(old(data)@.len(), pagesize),
    ensures
        final(data)@ == scrambled(old(data)@, pagesize, offset as nat),
{
    let blocksize = data.len() as u64;
    let ghost before = data@;
    let ghost len = before.len();
    let ghost page = page_len(len, pagesize);
    let ghost this_g = this_position(len, pagesize, offset as nat);
    let ghost next_g = next_position(len, pagesize, offset as nat);
    proof {
        lemma_pow2_positive(len as int);
    }
    let modulus = if pagesize != 0 {
        pagesize
    } else {
        blocksize
    };
    let this = offset & (modulus - 1);
    let next = offset.wrapping_add(1) & (modulus - 1);
    proof {
        lemma_pow2_positive(modulus as int);
        lemma_mask_is_mod(offset, modulus);
        lemma_mask_is_mod(offset.wrapping_add(1), modulus);
        lemma_wrap_keeps_mod(offset as int + 1, modulus);
        assert(offset.wrapping_add(1) as int == (offset as int + 1) % word_range()) by {
            if offset == u64::MAX {
                assert((offset as int + 1) % word_range() == 0);
            } else {
                lemma_small_mod((offset as int + 1) as nat, word_range() as nat);
            }
        }
        assert(this == this_g);
        assert(next == next_g);
        lemma_mod_bound(offset as int, page);
        lemma_mod_bound(offset as int + 1, page);
    }
    if pagesize != 0 {
        let num_pages = blocksize / pagesize;
        proof {
            lemma_pow2_divides(pagesize as int, blocksize as int);
            assert(data@ =~= scrambled_below(before, pagesize, offset as nat, 0));
        }
        let mut p: u64 = 0;
        while p < num_pages
            invariant
                p <= num_pages,
                pagesize > 0,
                page == pagesize,
                len == blocksize,
                len == pagesize * num_pages,
                this == this_g,
                next == next_g,
                0 <= this_g < page,
                0 <= next_g < page,
                data@.len() == len,
                before.len() == len,
                this_g == this_position(len, pagesize, offset as nat),
                next_g == next_position(len, pagesize, offset as nat),
                data@ == scrambled_below(before, pagesize, offset as nat, p * pagesize),
            decreases num_pages - p,
        {
            proof {
                assert(p * pagesize + pagesize <= len) by (nonlinear_arith)
                    requires
                        p < num_pages,
                        len == pagesize * num_pages,
                        pagesize > 0,
                ;
                assert((p + 1) * pagesize == p * pagesize + pagesize) by (nonlinear_arith);
                assert(p * pagesize >= 0) by (nonlinear_arith)
                    requires
                        p >= 0,
                        pagesize > 0,
                ;
            }
            let p_off = p * pagesize;
            let this_offset = this + p_off;
            let next_offset = next + p_off;
            proof {
                lemma_position_in_page(this_offset as int, p as int, page, this_g);
                lemma_position_in_page(next_offset as int, p as int, page, next_g);
            }
            let mixed = data[this_offset as usize] ^ data[next_offset as usize];
            data.set(this_offset as usize, mixed);
            proof {
                let after = scrambled_below(before, pagesize, offset as nat, (p + 1) * pagesize);
                assert forall|i: int| 0 <= i < len implies data@[i] == after[i] by {
                    if p_off <= i < p_off + pagesize {
                        lemma_position_in_page(i, p as int, page, this_g);
                    }
                }
                assert(data@ =~= after);
            }
            p = p + 1;
        }
        proof {
            assert(p * pagesize == len) by (nonlinear_arith)
                requires
                    p == num_pages,
                    len == pagesize * num_pages,
            ;
        }
        assert(data@ =~= scrambled(before, pagesize, offset as nat));
    } else {
        proof {
            lemma_small_mod(this as nat, page as nat);
        }
        let mixed = data[this as usize] ^ data[next as usize];
        data.set(this as usize, mixed);
        proof {
            assert forall|i: int| 0 <= i < len implies data@[i] == scrambled(
                before,
                pagesize,
                offset as nat,
            )[i] by {
                lemma_small_mod(i as nat, page as nat);
            }
        }
        assert(data@ =~= scrambled(before, pagesize, offset as nat));
    }
}

/// The mutator keeps the length of the buffer.
pub proof fn lemma_scramble_keeps_length(data: Seq<u8>, pagesize: u64, index: nat)
    ensures
        scrambled(data, pagesize, index).len() == data.len(),
{
}

/// Only the bytes at the written position of each page change.
pub proof fn lemma_scramble_touches_one_position(data: Seq<u8>, pagesize: u64, index: nat, i: int)
    requires
        0 <= i < data.len(),
        i % page_len(data.len(), pagesize) != this_position(data.len(), pagesize, index),
    ensures
        scrambled(data, pagesize, index)[i] == data[i],
{
}

/// With pages of two bytes or more, a second mutation at the same iteration
/// index undoes the first: the transform accumulates and is its own inverse,
/// not a projection.
pub proof fn lemma_scramble_twice_restores(data: Seq<u8>, pagesize: u64, index: nat)
    requires
        scramble_input(data.len(), pagesize),
        page_len(data.len(), pagesize) >= 2,
    ensures
        scrambled(scrambled(data, pagesize, index), pagesize, index) == data,
{
    let len = data.len();
    let page = page_len(len, pagesize);
    let this = this_position(len, pagesize, index);
    let next = next_position(len, pagesize, index);
    let once = scrambled(data, pagesize, index);
    let twice = scrambled(once, pagesize, index);
    lemma_positions_differ(len, pagesize, index);
    lemma_pow2_positive(len as int);
    if pagesize != 0 {
        lemma_pow2_divides(pagesize as int, len as int);
    } else {
        vstd::arithmetic::div_mod::lemma_div_by_self(page);
    }
    assert forall|i: int| 0 <= i < len implies twice[i] == data[i] by {
        if i % page == this {
            let p = i / page;
            let partner = i - this + next;
            lemma_fundamental_div_mod(i, page);
            assert(p * page == page * p) by (nonlinear_arith);
            assert(p < len as int / page) by (nonlinear_arith)
                requires
                    i == page * p + this,
                    i < len,
                    len == page * (len as int / page),
                    this >= 0,
                    page > 0,
            ;
            assert(p * page + page <= len) by (nonlinear_arith)
                requires
                    p < len as int / page,
                    len == page * (len as int / page),
                    page > 0,
            ;
            assert(p >= 0) by (nonlinear_arith)
                requires
                    i == page * p + this,
                    0 <= this < page,
                    i >= 0,
            ;
            lemma_position_in_page(partner, p, page, next);
            assert(once[partner] == data[partner]);
            let a = data[i];
            let b = data[partner];
            assert((a ^ b) ^ b == a) by (bit_vector);
        }
    }
    assert(twice =~= data);
}

/// With pages of two bytes or more the written and the read position differ.
pub proof fn lemma_positions_differ(len: nat, pagesize: u64, index: nat)
    requires
        page_len(len, pagesize) >= 2,
    ensures
        0 <= this_position(len, pagesize, index) < page_len(len, pagesize),
        0 <= next_position(len, pagesize, index) < page_len(len, pagesize),
        this_position(len, pagesize, index) != next_position(len, pagesize, index),
{
    let page = page_len(len, pagesize);
    let q = index as int / page;
    let r = index as int % page;
    lemma_fundamental_div_mod(index as int, page);
    lemma_mod_bound(index as int, page);
    lemma_mod_bound(index as int + 1, page);
    if r + 1 < page {
        lemma_fundamental_div_mod_converse(index as int + 1, page, q, r + 1);
    } else {
        assert(page * (q + 1) == page * q + page) by (nonlinear_arith);
        lemma_fundamental_div_mod_converse(index as int + 1, page, q + 1, 0);
    }
}

/// The transform is not idempotent: where a mutation changes the buffer at all,
/// and the pages hold two bytes or more, mutating again at the same index gives
/// something else than mutating once.
pub proof fn lemma_scramble_not_idempotent(data: Seq<u8>, pagesize: u64, index: nat)
    requires
        scramble_input(data.len(), pagesize),
        page_len(data.len(), pagesize) >= 2,
        scrambled(data, pagesize, index) != data,
    ensures
        scrambled(scrambled(data, pagesize, index), pagesize, index) != scrambled(
            data,
            pagesize,
            index,
        ),
{
    lemma_scramble_twice_restores(data, pagesize, index);
}

} // verus!
