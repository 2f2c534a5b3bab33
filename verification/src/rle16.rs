//! Run-length encoding of 16-bit block arrays for the wire: a sequence of
//! `(count, value)` pairs, both little-endian `u16`, each expanding to
//! `count` copies of `value`.  Encoding is proven to decode back exactly.

use vstd::prelude::*;

verus! {

broadcast use vstd::std_specs::vec::group_vec_axioms;

/// One encoded run.
pub open spec fn spec_group(cnt: u16, val: u16) -> Seq<u8> {
    seq![
        (cnt & 0xFF) as u8,
        (cnt >> 8) as u8,
        (val & 0xFF) as u8,
        (val >> 8) as u8,
    ]
}

/// Decodes a byte stream of runs; `None` on a truncated stream or a zero
/// run count.
pub open spec fn spec_rle16_decode(s: Seq<u8>) -> Option<Seq<u16>>
    decreases s.len(),
{
    if s.len() == 0 {
        Some(Seq::empty())
    } else if s.len() < 4 {
        None
    } else {
        let cnt = (s[0] as int + 256 * (s[1] as int)) as u16;
        let val = (s[2] as int + 256 * (s[3] as int)) as u16;
        if cnt == 0 {
            None
        } else {
            match spec_rle16_decode(s.skip(4)) {
                Some(rest) => Some(Seq::new(cnt as nat, |i: int| val) + rest),
                None => None,
            }
        }
    }
}

/// Appending one well-formed run extends the decoding by that run.
proof fn lemma_decode_append(a: Seq<u8>, cnt: u16, val: u16)
    requires
        spec_rle16_decode(a) is Some,
        cnt > 0,
    ensures
        spec_rle16_decode(a + spec_group(cnt, val)) == Some(
            spec_rle16_decode(a)->Some_0 + Seq::new(cnt as nat, |i: int| val),
        ),
    decreases a.len(),
{
    let g = spec_group(cnt, val);
    lemma_group_bytes(cnt, val);
    if a.len() == 0 {
        assert(a + g =~= g);
        assert(g.skip(4) =~= Seq::<u8>::empty());
        assert(spec_rle16_decode(g.skip(4)) == Some(Seq::<u16>::empty()));
        assert(spec_rle16_decode(g) == Some(
            Seq::new(cnt as nat, |i: int| val) + Seq::<u16>::empty(),
        ));
        assert(spec_rle16_decode(a)->Some_0 =~= Seq::<u16>::empty());
        assert(Seq::new(cnt as nat, |i: int| val) + Seq::<u16>::empty() =~= spec_rle16_decode(
            a,
        )->Some_0 + Seq::new(cnt as nat, |i: int| val));
    } else {
        assert(a.len() >= 4);
        let c0 = (a[0] as int + 256 * (a[1] as int)) as u16;
        assert(c0 != 0);
        lemma_decode_append(a.skip(4), cnt, val);
        assert((a + g).len() >= 4);
        assert((a + g)[0] == a[0] && (a + g)[1] == a[1] && (a + g)[2] == a[2] && (a + g)[3]
            == a[3]);
        assert((a + g).skip(4) =~= a.skip(4) + g);
        let rest0 = spec_rle16_decode(a.skip(4))->Some_0;
        assert(spec_rle16_decode(a + g) == Some(
            Seq::new(c0 as nat, |i: int| (a[2] as int + 256 * (a[3] as int)) as u16) + (rest0
                + Seq::new(cnt as nat, |i: int| val)),
        ));
        assert(Seq::new(c0 as nat, |i: int| (a[2] as int + 256 * (a[3] as int)) as u16) + (
        rest0 + Seq::new(cnt as nat, |i: int| val)) =~= (Seq::new(
            c0 as nat,
            |i: int| (a[2] as int + 256 * (a[3] as int)) as u16,
        ) + rest0) + Seq::new(cnt as nat, |i: int| val));
    }
}

/// The two bytes of a `u16` recompose to it.
proof fn lemma_group_bytes(cnt: u16, val: u16)
    ensures
        ((cnt & 0xFF) as u8) as int + 256 * (((cnt >> 8) as u8) as int) == cnt as int,
        ((val & 0xFF) as u8) as int + 256 * (((val >> 8) as u8) as int) == val as int,
{
    assert(((cnt & 0xFF) as u8) as u16 + 256 * (((cnt >> 8) as u8) as u16) == cnt)
        by (bit_vector);
    assert(((val & 0xFF) as u8) as u16 + 256 * (((val >> 8) as u8) as u16) == val)
        by (bit_vector);
}

/// Encodes `blocks` as runs; the result decodes back to exactly `blocks`.
pub fn rle16_encode(blocks: &Vec<u16>) -> (r: Vec<u8>)
    ensures
        spec_rle16_decode(r@) == Some(blocks@),
{
    let mut out: Vec<u8> = Vec::new();
    let n = blocks.len();
    let mut i: usize = 0;
    while i < n
        invariant
            n == blocks@.len(),
            0 <= i <= n,
            spec_rle16_decode(out@) == Some(blocks@.take(i as int)),
        decreases n - i,
    {
        let val = blocks[i];
        let mut run: usize = 1;
        while i + run < n && blocks[i + run] == val && run < 0xFFFF
            invariant
                n == blocks@.len(),
                0 <= i < n,
                1 <= run <= 0xFFFF,
                i + run <= n,
                val == blocks@[i as int],
                forall|j: int| i <= j < i + run ==> blocks@[j] == val,
            decreases n - (i + run),
        {
            run += 1;
        }
        let cnt = run as u16;
        let ghost prev_out = out@;
        out.push((cnt & 0xFF) as u8);
        out.push((cnt >> 8) as u8);
        out.push((val & 0xFF) as u8);
        out.push((val >> 8) as u8);
        proof {
            assert(cnt > 0);
            assert(out@ =~= prev_out + spec_group(cnt, val));
            lemma_decode_append(prev_out, cnt, val);
            assert(blocks@.take(i as int) + Seq::new(cnt as nat, |k: int| val) =~= blocks@.take(
                i as int + run as int,
            ));
        }
        i += run;
    }
    proof {
        assert(blocks@.take(n as int) =~= blocks@);
    }
    out
}

/// Decodes a run-length stream back into blocks, mirroring the spec.
pub fn rle16_decode(bytes: &Vec<u8>) -> (r: Option<Vec<u16>>)
    ensures
        match r {
            Some(v) => spec_rle16_decode(bytes@) == Some(v@),
            None => spec_rle16_decode(bytes@) == None::<Seq<u16>>,
        },
{
    let mut out: Vec<u16> = Vec::new();
    let n = bytes.len();
    proof {
        assert(bytes@.skip(0) =~= bytes@);
    }
    let mut i: usize = 0;
    while i < n
        invariant
            n == bytes@.len(),
            0 <= i <= n,
            i % 4 == 0,
            spec_rle16_decode(bytes@) == (match spec_rle16_decode(bytes@.skip(i as int)) {
                Some(rest) => Some(out@ + rest),
                None => None::<Seq<u16>>,
            }),
        decreases n - i,
    {
        if n - i < 4 {
            proof {
                assert(bytes@.skip(i as int).len() == n - i);
                assert(spec_rle16_decode(bytes@.skip(i as int)) is None);
            }
            return None;
        }
        let cnt: u16 = bytes[i] as u16 + 256 * (bytes[i + 1] as u16);
        let val: u16 = bytes[i + 2] as u16 + 256 * (bytes[i + 3] as u16);
        proof {
            let sfx = bytes@.skip(i as int);
            assert(sfx.len() >= 4);
            assert(sfx[0] == bytes@[i as int] && sfx[1] == bytes@[i as int + 1] && sfx[2]
                == bytes@[i as int + 2] && sfx[3] == bytes@[i as int + 3]);
        }
        if cnt == 0 {
            proof {
                assert(spec_rle16_decode(bytes@.skip(i as int)) is None);
            }
            return None;
        }
        let ghost prev_out = out@;
        let mut k: usize = 0;
        while k < cnt as usize
            invariant
                0 <= k <= cnt,
                out@ =~= prev_out + Seq::new(k as nat, |j: int| val),
            decreases cnt as int - k,
        {
            out.push(val);
            proof {
                assert(out@ =~= prev_out + Seq::new(k as nat + 1, |j: int| val));
            }
            k += 1;
        }
        proof {
            let sfx = bytes@.skip(i as int);
            assert(sfx.skip(4) =~= bytes@.skip(i as int + 4));
            assert(spec_rle16_decode(sfx) == (match spec_rle16_decode(
                bytes@.skip(i as int + 4),
            ) {
                Some(rest) => Some(Seq::new(cnt as nat, |j: int| val) + rest),
                None => None::<Seq<u16>>,
            }));
            if spec_rle16_decode(bytes@.skip(i as int + 4)) is Some {
                let rest = spec_rle16_decode(bytes@.skip(i as int + 4))->Some_0;
                assert(prev_out + (Seq::new(cnt as nat, |j: int| val) + rest) =~= (prev_out
                    + Seq::new(cnt as nat, |j: int| val)) + rest);
            }
        }
        i += 4;
    }
    proof {
        assert(bytes@.skip(n as int) =~= Seq::<u8>::empty());
        assert(spec_rle16_decode(bytes@.skip(n as int)) == Some(Seq::<u16>::empty()));
        assert(out@ + Seq::<u16>::empty() =~= out@);
    }
    Some(out)
}

} // verus!
