//! Decisions taken while booting: the command line and the consoles it
//! asks for.
pub mod cmdline;
pub mod memmap;

use vstd::prelude::*;
use crate::gfx::fb::{Fb, Mask, fb_usable};
use crate::limine;
use crate::mem::VADDR;
use crate::boot::cmdline::{CmdLine, DelimiterIter, lookup, next_part, lemma_next_part_advances};

verus! {

/// The value `fb*`: every framebuffer.
pub open spec fn is_fb_all(p: Seq<u8>) -> bool {
    p == seq![102u8, 98u8, 42u8]
}

/// A three-byte value that starts with `fb`.
pub open spec fn is_fb_name(p: Seq<u8>) -> bool {
    p.len() == 3 && p[0] == 102u8 && p[1] == 98u8
}

/// The framebuffers that one requested console names, as a bit mask:
/// all for `fb*`, framebuffer `N` for `fbN` with `N` from 0 to 7.
pub open spec fn part_mask(p: Seq<u8>) -> u8 {
    if is_fb_all(p) {
        0xffu8
    } else if is_fb_name(p) && 48 <= p[2] <= 55 {
        1u8 << ((p[2] - 48) as u8)
    } else {
        0u8
    }
}

/// The framebuffers that the parts of `v` from position `i` on name.
pub open spec fn parts_mask(v: Seq<u8>, d: u8, i: int) -> u8
    decreases v.len() - i,
    via parts_mask_decreases
{
    match next_part(v, d, i) {
        None => 0u8,
        Some((p, j)) => part_mask(p) | parts_mask(v, d, j),
    }
}

#[via_fn]
proof fn parts_mask_decreases(v: Seq<u8>, d: u8, i: int) {
    lemma_next_part_advances(v, d, i);
}

/// The parts of `v` from position `i` on that name no console at all.
pub open spec fn parts_unknown(v: Seq<u8>, d: u8, i: int) -> Seq<Seq<u8>>
    decreases v.len() - i,
    via parts_unknown_decreases
{
    match next_part(v, d, i) {
        None => Seq::empty(),
        Some((p, j)) => if !is_fb_all(p) && !is_fb_name(p) {
            seq![p] + parts_unknown(v, d, j)
        } else {
            parts_unknown(v, d, j)
        },
    }
}

#[via_fn]
proof fn parts_unknown_decreases(v: Seq<u8>, d: u8, i: int) {
    lemma_next_part_advances(v, d, i);
}

/// The key `console`.
pub open spec fn console_key() -> Seq<u8> {
    seq![99u8, 111u8, 110u8, 115u8, 111u8, 108u8, 101u8]
}

/// The framebuffers that the `console=` entry of a command line asks for.
pub open spec fn requested_mask(s: Seq<u8>) -> u8 {
    match lookup(s, console_key(), 0) {
        Some(Some(v)) => parts_mask(v, 44u8, 0),
        _ => 0u8,
    }
}

/// The values of the `console=` entry that name no known console.
pub open spec fn requested_unknown(s: Seq<u8>) -> Seq<Seq<u8>> {
    match lookup(s, console_key(), 0) {
        Some(Some(v)) => parts_unknown(v, 44u8, 0),
        _ => Seq::empty(),
    }
}

/// The facts about `|` on masks that gathering them needs.
proof fn lemma_or_facts(a: u8, b: u8, c: u8)
    ensures
        (a | b) | c == a | (b | c),
        a | 0u8 == a,
        0u8 | a == a,
        a | 0xffu8 == 0xffu8,
        a | b == b | a,
{
    assert(a | b == b | a) by (bit_vector);
    assert((a | b) | c == a | (b | c)) by (bit_vector);
    assert(a | 0u8 == a) by (bit_vector);
    assert(0u8 | a == a) by (bit_vector);
    assert(a | 0xffu8 == 0xffu8) by (bit_vector);
}

/// Reads the `console=` entry of the command line (a comma-separated list
/// of `fbN` and `fb*`): the bit mask of the framebuffers it asks for, and
/// the values it names that are no console, which are to be warned about.
/// An empty mask asks for the first usable framebuffer.
pub fn requested_consoles(cmdline: &CmdLine) -> (r: (u8, Vec<&[u8]>))
    ensures
        r.0 == requested_mask(cmdline.text()),
        r.1@.map_values(|x: &[u8]| x@) == requested_unknown(cmdline.text()),
{
    let key: &[u8] = &[99u8, 111u8, 110u8, 115u8, 111u8, 108u8, 101u8];
    assert(key@ == console_key());
    let mut mask: u8 = 0;
    let mut unknown: Vec<&[u8]> = Vec::new();
    let mut values: DelimiterIter = match cmdline.get_value_array(key, 44u8) {
        Some(values) => values,
        None => {
            return (mask, unknown);
        },
    };
    let ghost v = values.text();
    proof {
        lemma_or_facts(parts_mask(v, 44u8, 0), 0u8, 0u8);
        assert(unknown@.map_values(|x: &[u8]| x@) + parts_unknown(v, 44u8, 0) =~= parts_unknown(v, 44u8, 0));
    }
    loop
        invariant
            values.text() == v,
            values.delim() == 44u8,
            0 <= values.pos(),
            lookup(cmdline.text(), console_key(), 0) == Some(Some(v)),
            (mask | parts_mask(v, 44u8, values.pos())) == parts_mask(v, 44u8, 0),
            unknown@.map_values(|x: &[u8]| x@) + parts_unknown(v, 44u8, values.pos())
                == parts_unknown(v, 44u8, 0),
        decreases v.len() - values.pos(),
    {
        let ghost pos = values.pos();
        let ghost old_unknown = unknown@.map_values(|x: &[u8]| x@);
        proof {
            lemma_next_part_advances(v, 44u8, pos);
        }
        match values.next() {
            None => {
                proof {
                    lemma_or_facts(mask, 0u8, 0u8);
                    assert(unknown@.map_values(|x: &[u8]| x@) + Seq::<Seq<u8>>::empty() =~= unknown@.map_values(|x: &[u8]| x@));
                }
                return (mask, unknown);
            },
            Some(value) => {
                let ghost rest = values.pos();
                let ghost old_mask = mask;
                proof {
                    lemma_or_facts(old_mask, part_mask(value@), parts_mask(v, 44u8, rest));
                }
                if value.len() == 3 && value[0] == 102u8 && value[1] == 98u8 && value[2] == 42u8 {
                    assert(value@ =~= seq![102u8, 98u8, 42u8]);
                    mask = u8::MAX;
                    proof {
                        let pm = parts_mask(v, 44u8, rest);
                        lemma_or_facts(pm, 0xffu8, 0u8);
                        lemma_or_facts(old_mask | 0xffu8, pm, 0u8);
                        lemma_or_facts(old_mask, 0u8, 0u8);
                    }
                } else if value.len() == 3 && value[0] == 102u8 && value[1] == 98u8 {
                    assert(!is_fb_all(value@)) by {
                        if is_fb_all(value@) {
                            assert(value@[2] == 42u8);
                        }
                    }
                    let digit = value[2];
                    if digit >= 48u8 && digit <= 55u8 {
                        mask = mask | (1u8 << (digit - 48u8));
                    } else {
                        proof {
                            lemma_or_facts(old_mask, 0u8, 0u8);
                        }
                    }
                } else {
                    unknown.push(value);
                    proof {
                        lemma_or_facts(old_mask, 0u8, 0u8);
                        assert(unknown@.map_values(|x: &[u8]| x@) =~= old_unknown.push(value@));
                        assert(old_unknown + (seq![value@] + parts_unknown(v, 44u8, rest)) =~= old_unknown.push(value@) + parts_unknown(v, 44u8, rest));
                    }
                }
            },
        }
    }
}


/// The framebuffer a bootloader description makes: its sizes must fit in
/// a `usize`, and the console must be able to draw on it.
pub open spec fn fb_from(d: limine::fb::Fb) -> Option<(usize, usize, usize)> {
    if d.width <= usize::MAX && d.height <= usize::MAX && d.pitch <= usize::MAX && fb_usable(
        d.addr,
        d.width as usize,
        d.pitch as usize,
        d.bpp,
        Mask::new_spec(d.red_mask.size, d.red_mask.shift),
        Mask::new_spec(d.green_mask.size, d.green_mask.shift),
        Mask::new_spec(d.blue_mask.size, d.blue_mask.shift),
    ) {
        Some((d.width as usize, d.height as usize, d.pitch as usize))
    } else {
        None
    }
}

/// The framebuffer described by the bootloader, if the console can use
/// it.
pub fn try_create_fb(d: &limine::fb::Fb) -> (r: Option<Fb>)
    ensures
        r is Some <==> fb_from(*d) is Some,
        r matches Some(fb) ==> fb.addr_spec() == d.addr && (fb.width_spec(), fb.height_spec(),
            fb.pitch_spec()) == fb_from(*d)->0 && fb.bpp_spec() == d.bpp && fb.shifts() == (
            d.red_mask.shift,
            d.green_mask.shift,
            d.blue_mask.shift,
        ),
{
    if d.width > usize::MAX as u64 || d.height > usize::MAX as u64 || d.pitch > usize::MAX as u64 {
        return None;
    }
    Fb::try_new(
        d.addr,
        d.width as usize,
        d.height as usize,
        d.pitch as usize,
        d.bpp,
        Mask::new(d.red_mask.size, d.red_mask.shift),
        Mask::new(d.green_mask.size, d.green_mask.shift),
        Mask::new(d.blue_mask.size, d.blue_mask.shift),
    )
}

/// The first framebuffer the bootloader reported, if there is one and the
/// console can use it.
pub fn find_framebuffer(response: Option<&limine::FbResponse>) -> (r: Option<Fb>)
    ensures
        match response {
            None => r is None,
            Some(resp) => match first_fb(resp.framebuffers@) {
                None => r is None,
                Some(d) => (r is Some <==> fb_from(d) is Some) && (r matches Some(fb) ==> made_from(fb, d)),
            },
        },
{
    let resp = match response {
        Some(resp) => resp,
        None => {
            return None;
        },
    };
    let mut i: usize = 0;
    assert(resp.framebuffers@.subrange(0, resp.framebuffers@.len() as int) =~= resp.framebuffers@);
    while i < resp.framebuffers.len()
        invariant
            response == Some(resp),
            0 <= i <= resp.framebuffers@.len(),
            first_fb(resp.framebuffers@) == first_fb(resp.framebuffers@.subrange(i as int, resp.framebuffers@.len() as int)),
        decreases resp.framebuffers@.len() - i,
    {
        let ghost rest = resp.framebuffers@.subrange(i as int, resp.framebuffers@.len() as int);
        assert(rest.drop_first() =~= resp.framebuffers@.subrange(i + 1, resp.framebuffers@.len() as int));
        if let Some(d) = &resp.framebuffers[i] {
            return try_create_fb(d);
        }
        i = i + 1;
    }
    None
}

/// The first framebuffer of a list with null entries.
pub open spec fn first_fb(s: Seq<Option<limine::fb::Fb>>) -> Option<limine::fb::Fb>
    decreases s.len(),
{
    if s.len() == 0 {
        None
    } else if s[0] is Some {
        s[0]
    } else {
        first_fb(s.drop_first())
    }
}

/// `fb` is the framebuffer `try_create_fb` makes of the description `d`.
pub open spec fn made_from(fb: Fb, d: limine::fb::Fb) -> bool {
    &&& fb_from(d) is Some
    &&& fb.addr_spec() == d.addr
    &&& (fb.width_spec(), fb.height_spec(), fb.pitch_spec()) == fb_from(d)->0
    &&& fb.bpp_spec() == d.bpp
    &&& fb.shifts() == (d.red_mask.shift, d.green_mask.shift, d.blue_mask.shift)
}

/// Bit `j` of the console mask is set: framebuffer `j` was asked for.
pub open spec fn asked_for(mask: u8, j: int) -> bool {
    0 <= j < 8 && (mask >> (j as u8)) & 1u8 == 1u8
}

/// The framebuffers that get a console, by their number among `fbs`:
/// with a mask, each one asked for that the console can use; with an
/// empty mask, the first one it can use.
pub open spec fn chosen_fbs(mask: u8, fbs: Seq<limine::fb::Fb>) -> Seq<int>
    decreases fbs.len(),
{
    if fbs.len() == 0 {
        Seq::empty()
    } else {
        let rest = chosen_fbs(mask, fbs.drop_last());
        let j = fbs.len() - 1;
        let usable = fb_from(fbs.last()) is Some;
        if mask != 0 {
            if asked_for(mask, j) && usable {
                rest.push(j)
            } else {
                rest
            }
        } else if rest.len() == 0 && usable {
            rest.push(j)
        } else {
            rest
        }
    }
}

/// The numbers chosen are those of framebuffers in the list, in order.
proof fn lemma_chosen_bounds(mask: u8, fbs: Seq<limine::fb::Fb>)
    ensures
        chosen_fbs(mask, fbs).len() <= fbs.len(),
        forall|k: int| 0 <= k < chosen_fbs(mask, fbs).len() ==> 0 <= #[trigger] chosen_fbs(mask, fbs)[k] < fbs.len(),
    decreases fbs.len(),
{
    if fbs.len() > 0 {
        lemma_chosen_bounds(mask, fbs.drop_last());
    }
}

/// Shifting the mask right by `i` and then by one is shifting it by
/// `i + 1`.
proof fn lemma_mask_shift(m: u8, i: u8, j: u8)
    requires
        j == i + 1,
        j < 8,
    ensures
        (m >> i) >> 1u8 == m >> j,
{
    assert((m >> i) >> 1u8 == m >> j) by (bit_vector)
        requires
            j == i + 1,
            j < 8,
    ;
}

/// The mask shifted right by `i`, as the scan over framebuffers keeps it.
proof fn lemma_mask_step(m: u8, i: u8)
    requires
        i < 8,
    ensures
        ((m >> i) & 1u8 == 1u8) == asked_for(m, i as int),
        i + 1 < 8 ==> (m >> i) >> 1u8 == m >> ((i + 1) as u8),
        i + 1 == 8 ==> (m >> i) >> 1u8 == 0u8,
        m != 0 && (m >> i) == 0u8 ==> forall|j: u8| i <= j < 8 ==> !#[trigger] asked_for(m, j as int),
{
    assert(i + 1 < 8 ==> (m >> i) >> 1u8 == m >> ((i + 1) as u8)) by (bit_vector)
        requires
            i < 8,
    ;
    assert(i + 1 == 8 ==> (m >> i) >> 1u8 == 0u8) by (bit_vector)
        requires
            i < 8,
    ;
    assert forall|j: u8| i <= j < 8 && (m >> i) == 0u8 implies !#[trigger] asked_for(m, j as int) by {
        assert(i <= j < 8 && (m >> i) == 0u8 ==> (m >> j) & 1u8 != 1u8) by (bit_vector);
    }
}

/// `out` holds, in order, the framebuffers numbered `chosen` among
/// `fbs`, each with its number, each made of its description.
pub open spec fn consoles_for(out: Seq<(usize, Fb)>, chosen: Seq<int>, fbs: Seq<limine::fb::Fb>) -> bool {
    &&& out.len() == chosen.len()
    &&& forall|k: int|
        0 <= k < out.len() ==> (#[trigger] out[k]).0 == chosen[k] && 0 <= chosen[k] < fbs.len()
            && made_from(out[k].1, fbs[chosen[k]])
}

/// The framebuffers that get a console, in order, each with its number:
/// with a non-empty mask (see `requested_consoles`) each one asked for
/// that the console can use; otherwise the first one it can use.
pub fn select_consoles(mask: u8, fbs: &[limine::fb::Fb]) -> (r: Vec<(usize, Fb)>)
    ensures
        consoles_for(r@, chosen_fbs(mask, fbs@), fbs@),
{
    let mut out: Vec<(usize, Fb)> = Vec::new();
    let mut cur: u8 = mask;
    let mut i: usize = 0;
    assert(fbs@.subrange(0, 0) =~= Seq::<limine::fb::Fb>::empty());
    assert(mask >> 0u8 == mask) by (bit_vector);
    while i < fbs.len()
        invariant
            0 <= i <= fbs@.len(),
            i < 8 ==> cur == mask >> (i as u8),
            i >= 8 ==> cur == 0u8,
            out@.len() == chosen_fbs(mask, fbs@.subrange(0, i as int)).len(),
            consoles_for(out@, chosen_fbs(mask, fbs@.subrange(0, i as int)), fbs@),
        decreases fbs@.len() - i,
    {
        let ghost pre = fbs@.subrange(0, i as int);
        let ghost next = fbs@.subrange(0, i + 1);
        let ghost ch = chosen_fbs(mask, pre);
        let ghost old_out = out@;
        assert(next.drop_last() =~= pre);
        proof {
            lemma_chosen_bounds(mask, pre);
        }
        assert(next.last() == fbs@[i as int]);
        proof {
            if i < 8 {
                lemma_mask_step(mask, i as u8);
            }
        }
        let ghost old_cur = cur;
        let mut picked = false;
        if mask != 0 {
            if cur & 1 == 1 {
                assert(i < 8) by {
                    if i >= 8 {
                        assert(0u8 & 1u8 == 0u8) by (bit_vector);
                    }
                }
                match try_create_fb(&fbs[i]) {
                    Some(fb) => {
                        out.push((i, fb));
                        picked = true;
                    },
                    None => {},
                }
            }
            cur = cur >> 1u8;
            proof {
                if i >= 8 {
                    assert(0u8 >> 1u8 == 0u8) by (bit_vector);
                }
            }
        } else {
            if out.len() == 0 {
                match try_create_fb(&fbs[i]) {
                    Some(fb) => {
                        out.push((i, fb));
                        picked = true;
                    },
                    None => {},
                }
            }
        }
        proof {
            if picked {
                assert(chosen_fbs(mask, next) == ch.push(i as int));
            } else {
                assert(chosen_fbs(mask, next) == ch);
            }
        }
        i = i + 1;
        proof {
            assert(fbs@.subrange(0, i as int) == next);
            lemma_chosen_bounds(mask, next);
            assert forall|k: int| 0 <= k < out@.len() implies (#[trigger] out@[k]).0 == chosen_fbs(mask, next)[k]
                && 0 <= chosen_fbs(mask, next)[k] < fbs@.len()
                && made_from(out@[k].1, fbs@[chosen_fbs(mask, next)[k]]) by {
                assert(0 <= chosen_fbs(mask, next)[k] < next.len());
                if k < old_out.len() {
                    assert(out@[k] == old_out[k]);
                    assert(chosen_fbs(mask, next)[k] == ch[k]);
                    assert(made_from(old_out[k].1, fbs@[ch[k]]));
                } else {
                    assert(picked);
                    assert(k == ch.len());
                    assert(chosen_fbs(mask, next)[k] == i - 1);
                }
            }
            assert(consoles_for(out@, chosen_fbs(mask, next), fbs@));
            if i == 8 && mask == 0 {
                assert(0u8 >> 7u8 == 0u8) by (bit_vector);
            }
            if i < 8 {
                assert(mask >> ((i - 1) as u8) == old_cur);
                lemma_mask_shift(mask, (i - 1) as u8, i as u8);
                if mask == 0 {
                    assert(0u8 >> (i as u8) == 0u8) by (bit_vector);
                    assert(0u8 >> ((i - 1) as u8) == 0u8) by (bit_vector);
                }
            }
        }
    }
    assert(fbs@.subrange(0, fbs@.len() as int) =~= fbs@);
    out
}

/// Why the bootloader's linear mapping of physical memory is refused.
#[derive(Clone, Copy, Debug, PartialEq, Eq, Structural)]
pub enum HhdmError {
    /// The bootloader did not map physical memory.
    NotMapped,
    /// It mapped it at this offset, not at `VADDR`.
    BadOffset(u64),
}

/// Checks the offset at which the bootloader mapped all of physical
/// memory: the kernel needs the mapping, and at `VADDR`.
pub fn check_hhdm(offset: Option<u64>) -> (r: Result<u64, HhdmError>)
    ensures
        match offset {
            None => r == Err::<u64, HhdmError>(HhdmError::NotMapped),
            Some(o) => if o == VADDR {
                r == Ok::<u64, HhdmError>(o)
            } else {
                r == Err::<u64, HhdmError>(HhdmError::BadOffset(o))
            },
        },
{
    match offset {
        None => Err(HhdmError::NotMapped),
        Some(o) => if o == VADDR {
            Ok(o)
        } else {
            Err(HhdmError::BadOffset(o))
        },
    }
}

/// The parts of a value with no delimiter in it: the value itself.
proof fn lemma_one_part(v: Seq<u8>)
    requires
        v.len() > 0,
        forall|j: int| 0 <= j < v.len() ==> v[j] != 44u8,
    ensures
        parts_mask(v, 44u8, 0) == part_mask(v) | 0u8,
{
    let n = v.len() as int;
    crate::boot::cmdline::lemma_skip_byte(v, 44u8, 0, 0);
    crate::boot::cmdline::lemma_find_byte(v, 44u8, 0, n);
    assert(v.subrange(0, n) =~= v);
    assert(next_part(v, 44u8, 0) == Some((v, n)));
    assert(crate::boot::cmdline::skip_byte(v, 44u8, n) == n);
    assert(next_part(v, 44u8, n) is None);
    assert(parts_mask(v, 44u8, n) == 0u8);
    assert(parts_mask(v, 44u8, 0) == part_mask(v) | parts_mask(v, 44u8, n));
}

/// The command line `console=fbN`, with `N` a digit from 0 to 7, asks
/// for framebuffer `N` and no other; `console=fb*` asks for all eight.
pub proof fn law_console_names_framebuffer(n: u8)
    requires
        n < 8,
    ensures
        requested_mask(console_key() + seq![61u8] + seq![102u8, 98u8, (48 + n) as u8]) == 1u8 << n,
        requested_mask(console_key() + seq![61u8] + seq![102u8, 98u8, 42u8]) == 0xffu8,
{
    let key = console_key();
    let fb_n = seq![102u8, 98u8, (48 + n) as u8];
    let fb_all = seq![102u8, 98u8, 42u8];
    crate::boot::cmdline::law_lookup_reads_entry(key, fb_n);
    crate::boot::cmdline::law_lookup_reads_entry(key, fb_all);
    lemma_one_part(fb_n);
    lemma_one_part(fb_all);
    assert(fb_n != fb_all) by {
        assert(fb_n[2] != fb_all[2]);
    }
    assert(part_mask(fb_n) == 1u8 << n);
    let m = 1u8 << n;
    assert(m | 0u8 == m) by (bit_vector);
    assert(0xffu8 | 0u8 == 0xffu8) by (bit_vector);
}

} // verus!
