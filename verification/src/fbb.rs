//! The B2 framed-message format: a byte-stuffed container of SOH
//! header, STX data blocks and EOT checksum wrapping an LZHUF-compressed
//! payload, with a two-layer integrity check (CRC-16 over the
//! uncompressed length and compressed data, plus an 8-bit sum of all
//! framed bytes). The parser is streaming: with too few bytes it
//! reports how many more it needs, so a caller can resume without
//! discarding its buffer. The B2F proposal grammar lives here too.

use vstd::prelude::*;
use crate::crc16::Crc16;
use crate::crc16::crc16_byte;
use crate::lzhuf::BitReadModel;
use crate::lzhuf::Decoder;
use crate::lzhuf::spec_decode;
use crate::lzhuf::spec_init;
use crate::lzhuf::UnexpectedEof;
use crate::types::is_digit_byte;

verus! {

/// A printable-ASCII or space byte, as allowed in a frame title.
pub open spec fn is_title_byte(b: u8) -> bool {
    0x21 <= b <= 0x7e || b == 0x20
}

/// First index at or after `i` that is not a title byte.
pub open spec fn title_end(s: Seq<u8>, i: int) -> int
    decreases s.len() - i,
{
    if i < 0 || i >= s.len() || !is_title_byte(s[i]) {
        i
    } else {
        title_end(s, i + 1)
    }
}

/// First index at or after `i` that is not a decimal digit.
pub open spec fn digits_end(s: Seq<u8>, i: int) -> int
    decreases s.len() - i,
{
    if i < 0 || i >= s.len() || !is_digit_byte(s[i]) {
        i
    } else {
        digits_end(s, i + 1)
    }
}

/// The number a digit string denotes.
pub open spec fn dec_value(s: Seq<u8>) -> int
    decreases s.len(),
{
    if s.len() == 0 {
        0
    } else {
        dec_value(s.drop_last()) * 10 + (s.last() - 0x30)
    }
}

/// Header parse outcome: title, resumption offset and rest index; or a
/// demand for more bytes; or a malformed header.
pub ghost enum HeaderOut {
    Done { title: Seq<u8>, offset: u32, rest: int },
    More { needed: int },
    Malformed,
}

/// Parse the SOH header: `0x01`, a length up to 88, and within that
/// many bytes a title, NUL, a decimal offset, NUL, and nothing else.
pub open spec fn spec_parse_header(s: Seq<u8>) -> HeaderOut {
    if s.len() < 1 {
        HeaderOut::More { needed: 1 }
    } else if s[0] != 1 {
        HeaderOut::Malformed
    } else if s.len() < 2 {
        HeaderOut::More { needed: 1 }
    } else if s[1] > 88 {
        HeaderOut::Malformed
    } else if s.len() < 2 + s[1] {
        HeaderOut::More { needed: 2 + s[1] - s.len() }
    } else {
        let h = s.subrange(2, 2 + s[1]);
        let te = title_end(h, 0);
        if te >= h.len() || h[te] != 0 {
            HeaderOut::Malformed
        } else {
            let de = digits_end(h, te + 1);
            let digits = h.subrange(te + 1, de);
            if digits.len() == 0 {
                HeaderOut::Malformed
            } else if dec_value(digits) > 0xffffffff {
                HeaderOut::Malformed
            } else if de >= h.len() || h[de] != 0 {
                HeaderOut::Malformed
            } else if de + 1 != h.len() {
                HeaderOut::Malformed
            } else {
                HeaderOut::Done {
                    title: h.subrange(0, te),
                    offset: dec_value(digits) as u32,
                    rest: 2 + s[1],
                }
            }
        }
    }
}

/// Data-block parse outcome.
pub ghost enum BlocksOut {
    Done { blocks: Seq<Seq<u8>>, checksum: u8, rest: int },
    More { needed: int },
    Malformed,
}

/// Parse data blocks from index `i`: each is `0x02`, a length byte (0
/// meaning 256), and that many bytes; `0x04` and a checksum byte end
/// the sequence.
pub open spec fn spec_parse_blocks(s: Seq<u8>, i: int, acc: Seq<Seq<u8>>) -> BlocksOut
    decreases s.len() - i,
{
    if i >= s.len() {
        BlocksOut::More { needed: 1 }
    } else if s[i] == 4 {
        if i + 1 >= s.len() {
            BlocksOut::More { needed: 1 }
        } else {
            BlocksOut::Done { blocks: acc, checksum: s[i + 1], rest: i + 2 }
        }
    } else if s[i] != 2 {
        BlocksOut::Malformed
    } else if i + 1 >= s.len() {
        BlocksOut::More { needed: 1 }
    } else {
        let cnt: int = if s[i + 1] == 0 {
            256
        } else {
            s[i + 1] as int
        };
        if s.len() - (i + 2) < cnt {
            BlocksOut::More { needed: cnt - (s.len() - (i + 2)) }
        } else {
            spec_parse_blocks(s, i + 2 + cnt, acc.push(s.subrange(i + 2, i + 2 + cnt)))
        }
    }
}

/// 8-bit wrapping sum of a byte sequence, from `init`.
pub open spec fn sum8(s: Seq<u8>, init: u8) -> u8
    decreases s.len(),
{
    if s.len() == 0 {
        init
    } else {
        sum8(s.skip(1), ((init + s[0]) % 256) as u8)
    }
}

/// 8-bit wrapping sum over a sequence of blocks.
pub open spec fn sum8_blocks(bs: Seq<Seq<u8>>, init: u8) -> u8
    decreases bs.len(),
{
    if bs.len() == 0 {
        init
    } else {
        sum8_blocks(bs.skip(1), sum8(bs[0], init))
    }
}

/// The 8-bit sum's seed: the CRC's two bytes and the uncompressed
/// size's four, folded in the machine's wrapping arithmetic.
pub open spec fn check_seed(crc: u16, size: u32) -> u8 {
    ((((((crc + (crc >> 8)) % 0x10000) as u32) + (((size + (size >> 8)) + ((size >> 16) + (size
        >> 24))) % 0x100000000)) % 0x100000000) % 256) as u8
}

/// The four little-endian bytes of a 32-bit value.
pub open spec fn le4(v: u32) -> Seq<u8> {
    seq![(v % 256) as u8, ((v >> 8) % 256) as u8, ((v >> 16) % 256) as u8, ((v >> 24) % 256) as u8]
}

/// CRC-16 folded over one byte sequence, from a given register.
pub open spec fn crc16_run(s: Seq<u8>, init: u16) -> u16
    decreases s.len(),
{
    if s.len() == 0 {
        init
    } else {
        crc16_run(s.skip(1), crc16_byte(init, s[0]))
    }
}

/// CRC-16 folded over a sequence of blocks.
pub open spec fn crc16_blocks(bs: Seq<Seq<u8>>, init: u16) -> u16
    decreases bs.len(),
{
    if bs.len() == 0 {
        init
    } else {
        crc16_blocks(bs.skip(1), crc16_run(bs[0], init))
    }
}

/// The concatenation of a sequence of blocks.
pub open spec fn concat_blocks(bs: Seq<Seq<u8>>) -> Seq<u8>
    decreases bs.len(),
{
    if bs.len() == 0 {
        Seq::empty()
    } else {
        bs[0] + concat_blocks(bs.skip(1))
    }
}

/// A parsed frame: the blocks hold the compressed payload, after the
/// first block's leading six bytes were peeled off as the CRC-16 and
/// the uncompressed size.
pub ghost struct SpecMessage {
    pub title: Seq<u8>,
    pub offset: u32,
    pub crc16: u16,
    pub uncompressed_size: u32,
    pub blocks: Seq<Seq<u8>>,
}

/// Frame parse outcome; `Done` keeps the trailing checksum byte so the
/// integrity statement can name it.
pub ghost enum FrameOut {
    Done { msg: SpecMessage, checksum: u8, rest: int },
    More { needed: int },
    Malformed,
    BadChecksum,
    BadCrc,
}

/// Parse one whole frame and verify both integrity identities.
pub open spec fn spec_parse_frame(s: Seq<u8>) -> FrameOut {
    match spec_parse_header(s) {
        HeaderOut::More { needed } => FrameOut::More { needed },
        HeaderOut::Malformed => FrameOut::Malformed,
        HeaderOut::Done { title, offset, rest } => match spec_parse_blocks(
            s,
            rest,
            Seq::empty(),
        ) {
            BlocksOut::More { needed } => FrameOut::More { needed },
            BlocksOut::Malformed => FrameOut::Malformed,
            BlocksOut::Done { blocks: raw, checksum, rest: end } => {
                if raw.len() > 0 && raw[0].len() < 6 {
                    FrameOut::Malformed
                } else {
                    let crc: u16 = if raw.len() == 0 {
                        0
                    } else {
                        (raw[0][0] + raw[0][1] * 256) as u16
                    };
                    let size: u32 = if raw.len() == 0 {
                        0
                    } else {
                        (raw[0][2] + raw[0][3] * 256 + raw[0][4] * 65536 + raw[0][5]
                            * 16777216) as u32
                    };
                    let blocks = if raw.len() == 0 {
                        raw
                    } else {
                        raw.update(0, raw[0].skip(6))
                    };
                    if ((sum8_blocks(blocks, check_seed(crc, size)) + checksum) % 256) != 0 {
                        FrameOut::BadChecksum
                    } else if crc16_blocks(blocks, crc16_run(le4(size), 0)) != crc {
                        FrameOut::BadCrc
                    } else {
                        FrameOut::Done {
                            msg: SpecMessage {
                                title,
                                offset,
                                crc16: crc,
                                uncompressed_size: size,
                                blocks,
                            },
                            checksum,
                            rest: end,
                        }
                    }
                }
            },
        },
    }
}

/// A frame the parser accepts satisfies both integrity identities: the
/// CRC-16 of the little-endian uncompressed size followed by the
/// compressed bytes equals the frame's CRC field, and the 8-bit sum of
/// all framed bytes plus the trailing checksum byte is zero.
pub proof fn lemma_frame_integrity(s: Seq<u8>)
    requires
        spec_parse_frame(s) is Done,
    ensures
        ({
            let m = spec_parse_frame(s)->Done_msg;
            crc16_blocks(m.blocks, crc16_run(le4(m.uncompressed_size), 0)) == m.crc16
        }),
        ({
            let m = spec_parse_frame(s)->Done_msg;
            let ck = spec_parse_frame(s)->Done_checksum;
            (sum8_blocks(m.blocks, check_seed(m.crc16, m.uncompressed_size)) + ck) % 256 == 0
        }),
{
}

/// A finished block run ends past the EOT and checksum bytes.
proof fn lemma_blocks_rest_ge(s: Seq<u8>, i: int, acc: Seq<Seq<u8>>)
    requires
        spec_parse_blocks(s, i, acc) is Done,
    ensures
        spec_parse_blocks(s, i, acc)->Done_rest >= i + 2,
        i < s.len(),
    decreases s.len() - i,
{
    if i >= s.len() || s[i] == 4 || s[i] != 2 || i + 1 >= s.len() {
    } else {
        let cnt: int = if s[i + 1] == 0 {
            256
        } else {
            s[i + 1] as int
        };
        if s.len() - (i + 2) >= cnt {
            lemma_blocks_rest_ge(s, i + 2 + cnt, acc.push(s.subrange(i + 2, i + 2 + cnt)));
        }
    }
}

/// Cutting a finished block run anywhere before its end leaves the
/// parser demanding at least one byte, and no more than the cut took
/// away.
proof fn lemma_blocks_prefix(s: Seq<u8>, p: int, i: int, acc: Seq<Seq<u8>>)
    requires
        spec_parse_blocks(s, i, acc) is Done,
        0 <= i <= p < spec_parse_blocks(s, i, acc)->Done_rest,
        spec_parse_blocks(s, i, acc)->Done_rest <= s.len(),
    ensures
        spec_parse_blocks(s.take(p), i, acc) matches BlocksOut::More { needed } && 1 <= needed && p
            + needed <= spec_parse_blocks(s, i, acc)->Done_rest,
    decreases s.len() - i,
{
    let t = s.take(p);
    let end = spec_parse_blocks(s, i, acc)->Done_rest;
    lemma_blocks_rest_ge(s, i, acc);
    assert(forall|q: int| 0 <= q < p ==> t[q] == s[q]);
    if s[i] == 4 {
        // the EOT and checksum bytes themselves were cut
        assert(end == i + 2);
    } else {
        let cnt: int = if s[i + 1] == 0 {
            256
        } else {
            s[i + 1] as int
        };
        assert(s.len() - (i + 2) >= cnt);
        let acc2 = acc.push(s.subrange(i + 2, i + 2 + cnt));
        if p < i + 2 + cnt {
            // the cut fell inside this block (or its length byte)
            if p >= i + 2 {
                assert(spec_parse_blocks(t, i, acc) == (BlocksOut::More {
                    needed: cnt - (p - (i + 2)),
                }));
                lemma_blocks_rest_ge(s, i + 2 + cnt, acc2);
            }
        } else {
            assert(t.subrange(i + 2, i + 2 + cnt) =~= s.subrange(i + 2, i + 2 + cnt));
            lemma_blocks_prefix(s, p, i + 2 + cnt, acc2);
        }
    }
}

/// Incremental parsing: cut a buffer holding exactly one accepted
/// frame anywhere before its end, and the parser asks for at least one
/// more byte, never more than were cut away; supplying the rest of the
/// buffer then yields the frame itself, since the parser is a function
/// of the whole buffer.
pub proof fn lemma_incremental_parsing(s: Seq<u8>, p: int)
    requires
        spec_parse_frame(s) matches FrameOut::Done { rest, .. } && rest == s.len(),
        0 <= p < s.len(),
    ensures
        spec_parse_frame(s.take(p)) matches FrameOut::More { needed } && 1 <= needed && p + needed
            <= s.len(),
{
    let t = s.take(p);
    assert(forall|q: int| 0 <= q < p ==> t[q] == s[q]);
    let hrest = spec_parse_header(s)->Done_rest;
    let l = s[1] as int;
    assert(hrest == 2 + l);
    lemma_blocks_rest_ge(s, hrest, Seq::empty());
    if p < 2 {
        // SOH or the length byte is missing
        assert(2 + l <= s.len());
    } else if p < 2 + l {
        // the header's payload is cut: the rest of it is demanded
        assert(spec_parse_header(t) == (HeaderOut::More { needed: 2 + l - p }));
    } else {
        // the whole header is present and reads the same
        assert(t.subrange(2, 2 + t[1]) =~= s.subrange(2, 2 + s[1]));
        assert(spec_parse_header(t) == spec_parse_header(s));
        lemma_blocks_prefix(s, p, hrest, Seq::empty());
    }
}

/// Why a frame was refused or postponed.
#[derive(Clone, Copy, Debug, PartialEq, Eq, Structural)]
pub enum FrameError {
    /// At least this many further bytes are needed.
    Incomplete { needed: usize },
    /// A byte broke the frame grammar.
    Malformed,
    /// The 8-bit sum identity failed.
    ChecksumMismatch,
    /// The CRC-16 identity failed.
    Crc16Mismatch,
}

/// A parsed and integrity-checked frame, holding the compressed
/// payload.
#[derive(Clone, Debug, PartialEq, Eq)]
pub struct CompressedMessage {
    pub title: Vec<u8>,
    pub offset: u32,
    pub crc16: u16,
    pub uncompressed_size: u32,
    pub blocks: Vec<Vec<u8>>,
}

impl View for CompressedMessage {
    type V = SpecMessage;

    open spec fn view(&self) -> SpecMessage {
        SpecMessage {
            title: self.title@,
            offset: self.offset,
            crc16: self.crc16,
            uncompressed_size: self.uncompressed_size,
            blocks: self.blocks.deep_view(),
        }
    }
}

impl CompressedMessage {
    /// Decompress the payload: the concatenated blocks, decoded to
    /// exactly the uncompressed size the frame declared.
    pub fn decompress(self) -> (r: Result<Vec<u8>, UnexpectedEof>)
        ensures
            match r {
                Ok(v) => spec_decode(
                    spec_init(),
                    BitReadModel { buf: 0, pos: 0, rest: concat_blocks(self@.blocks) },
                    self.uncompressed_size as int,
                ).0 == Some(v@),
                Err(_) => spec_decode(
                    spec_init(),
                    BitReadModel { buf: 0, pos: 0, rest: concat_blocks(self@.blocks) },
                    self.uncompressed_size as int,
                ).0 is None,
            },
    {
        let ghost deep = self.blocks.deep_view();
        let mut flat: Vec<u8> = Vec::new();
        proof {
            assert(deep.skip(0) =~= deep);
            assert(flat@ + concat_blocks(deep) =~= concat_blocks(deep));
        }
        let mut bi: usize = 0;
        while bi < self.blocks.len()
            invariant
                bi <= self.blocks@.len(),
                deep == self.blocks.deep_view(),
                deep.len() == self.blocks@.len(),
                flat@ + concat_blocks(deep.skip(bi as int)) == concat_blocks(deep),
            decreases self.blocks@.len() - bi,
        {
            let blk = &self.blocks[bi];
            proof {
                assert(deep.skip(bi as int)[0] == blk@);
                assert(deep.skip(bi as int).skip(1) =~= deep.skip(bi as int + 1));
                assert(flat@ + (blk@ + concat_blocks(deep.skip(bi as int + 1))) =~= (flat@ + blk@)
                    + concat_blocks(deep.skip(bi as int + 1)));
                assert((flat@ + blk@.skip(0)) =~= flat@ + blk@);
            }
            let mut k: usize = 0;
            while k < blk.len()
                invariant
                    k <= blk@.len(),
                    (flat@ + blk@.skip(k as int)) + concat_blocks(deep.skip(bi as int + 1))
                        == concat_blocks(deep),
                decreases blk@.len() - k,
            {
                let b = blk[k];
                flat.push(b);
                proof {
                    assert(flat@ + blk@.skip(k as int + 1) =~= flat@.drop_last() + blk@.skip(
                        k as int,
                    ));
                }
                k = k + 1;
            }
            proof {
                assert(flat@ + blk@.skip(blk@.len() as int) =~= flat@);
            }
            bi = bi + 1;
        }
        proof {
            assert(concat_blocks(deep.skip(deep.len() as int)) =~= Seq::<u8>::empty());
            assert(flat@ + Seq::<u8>::empty() =~= flat@);
        }
        let size = self.uncompressed_size;
        let mut decoder = Decoder::new(flat);
        decoder.decode(size as usize)
    }
}

/// Parse the SOH header out of `data`.
fn parse_header(data: &Vec<u8>) -> (r: Result<(Vec<u8>, u32, usize), FrameError>)
    ensures
        match r {
            Ok((title, offset, rest)) => spec_parse_header(data@) == (HeaderOut::Done {
                title: title@,
                offset,
                rest: rest as int,
            }),
            Err(FrameError::Incomplete { needed }) => spec_parse_header(data@)
                == (HeaderOut::More { needed: needed as int }),
            Err(FrameError::Malformed) => spec_parse_header(data@) is Malformed,
            Err(_) => false,
        },
{
    if data.len() < 1 {
        return Err(FrameError::Incomplete { needed: 1 });
    }
    if data[0] != 1 {
        return Err(FrameError::Malformed);
    }
    if data.len() < 2 {
        return Err(FrameError::Incomplete { needed: 1 });
    }
    let l = data[1];
    if l > 88 {
        return Err(FrameError::Malformed);
    }
    let hlen: usize = 2 + l as usize;
    if data.len() < hlen {
        return Err(FrameError::Incomplete { needed: hlen - data.len() });
    }
    let ghost h = data@.subrange(2, 2 + data@[1]);

    // title: printable ASCII and spaces
    let mut te: usize = 0;
    while te < l as usize && (0x21 <= data[2 + te] && data[2 + te] <= 0x7e || data[2 + te] == 0x20)
        invariant
            te <= l,
            hlen == 2 + l,
            data@.len() >= hlen,
            h == data@.subrange(2, 2 + l as int),
            title_end(h, te as int) == title_end(h, 0),
        decreases l - te,
    {
        proof {
            assert(h[te as int] == data@[2 + te]);
        }
        te = te + 1;
    }
    proof {
        if (te as int) < h.len() {
            assert(h[te as int] == data@[2 + te]);
        }
        assert(title_end(h, te as int) == te);
    }
    if te >= l as usize || data[2 + te] != 0 {
        return Err(FrameError::Malformed);
    }

    // decimal offset
    let mut de: usize = te + 1;
    while de < l as usize && 0x30 <= data[2 + de] && data[2 + de] <= 0x39
        invariant
            te + 1 <= de <= l,
            hlen == 2 + l,
            data@.len() >= hlen,
            h == data@.subrange(2, 2 + l as int),
            digits_end(h, de as int) == digits_end(h, te + 1 as int),
            forall|q: int| te + 1 <= q < de ==> is_digit_byte(#[trigger] h[q]),
        decreases l - de,
    {
        proof {
            assert(h[de as int] == data@[2 + de]);
        }
        de = de + 1;
    }
    proof {
        if (de as int) < h.len() {
            assert(h[de as int] == data@[2 + de]);
        }
        assert(digits_end(h, de as int) == de);
    }
    if de == te + 1 {
        return Err(FrameError::Malformed);
    }
    let ghost digits = h.subrange(te + 1 as int, de as int);

    let mut value: u64 = 0;
    let mut overflow: bool = false;
    let mut di: usize = te + 1;
    while di < de
        invariant
            te + 1 <= di <= de <= l,
            hlen == 2 + l,
            data@.len() >= hlen,
            h == data@.subrange(2, 2 + l as int),
            digits == h.subrange(te + 1 as int, de as int),
            forall|q: int| te + 1 <= q < de ==> is_digit_byte(#[trigger] h[q]),
            !overflow ==> value == dec_value(h.subrange(te + 1 as int, di as int)) && value
                <= 0xffffffff,
            overflow ==> dec_value(h.subrange(te + 1 as int, di as int)) > 0xffffffff,
        decreases de - di,
    {
        let d = data[2 + di];
        proof {
            assert(h[di as int] == data@[2 + di]);
            assert(h.subrange(te + 1 as int, di + 1 as int).drop_last() =~= h.subrange(
                te + 1 as int,
                di as int,
            ));
            assert(h.subrange(te + 1 as int, di + 1 as int).last() == h[di as int]);
        }
        if overflow {
            proof {
                assert(dec_value(h.subrange(te + 1 as int, di + 1 as int)) > 0xffffffff);
            }
        } else {
            value = value * 10 + (d - 0x30) as u64;
            if value > 0xffffffff {
                overflow = true;
            }
        }
        di = di + 1;
    }
    proof {
        assert(h.subrange(te + 1 as int, de as int) == digits);
    }
    if overflow {
        return Err(FrameError::Malformed);
    }
    if de >= l as usize || data[2 + de] != 0 {
        return Err(FrameError::Malformed);
    }
    if de + 1 != l as usize {
        return Err(FrameError::Malformed);
    }

    let mut title: Vec<u8> = Vec::new();
    let mut ti: usize = 0;
    while ti < te
        invariant
            ti <= te,
            te < l,
            hlen == 2 + l,
            data@.len() >= hlen,
            h == data@.subrange(2, 2 + l as int),
            title@ =~= h.subrange(0, ti as int),
        decreases te - ti,
    {
        title.push(data[2 + ti]);
        proof {
            assert(h[ti as int] == data@[2 + ti]);
        }
        ti = ti + 1;
    }
    proof {
        assert(title@ =~= h.subrange(0, te as int));
    }
    Ok((title, value as u32, hlen))
}

/// Parse the data blocks and the trailing checksum byte, starting at
/// `start`.
fn parse_blocks(data: &Vec<u8>, start: usize) -> (r: Result<(Vec<Vec<u8>>, u8, usize), FrameError>)
    requires
        start <= data@.len(),
    ensures
        match r {
            Ok((blocks, ck, rest)) => spec_parse_blocks(data@, start as int, Seq::empty())
                == (BlocksOut::Done { blocks: blocks.deep_view(), checksum: ck, rest: rest as int }),
            Err(FrameError::Incomplete { needed }) => spec_parse_blocks(
                data@,
                start as int,
                Seq::empty(),
            ) == (BlocksOut::More { needed: needed as int }),
            Err(FrameError::Malformed) => spec_parse_blocks(data@, start as int, Seq::empty())
                is Malformed,
            Err(_) => false,
        },
{
    let mut acc: Vec<Vec<u8>> = Vec::new();
    let mut i: usize = start;
    proof {
        assert(acc.deep_view() =~= Seq::<Seq<u8>>::empty());
    }
    loop
        invariant_except_break
            i <= data@.len(),
            spec_parse_blocks(data@, i as int, acc.deep_view()) == spec_parse_blocks(
                data@,
                start as int,
                Seq::empty(),
            ),
        ensures
            i <= data@.len(),
            spec_parse_blocks(data@, i as int, acc.deep_view()) == spec_parse_blocks(
                data@,
                start as int,
                Seq::empty(),
            ),
            i >= data@.len() || data@[i as int] != 2 || i + 1 >= data@.len() || data@.len() - (i
                + 2) < (if data@[i + 1] == 0 {
                256int
            } else {
                data@[i + 1] as int
            }),
        decreases data@.len() - i,
    {
        if i >= data.len() {
            break;
        }
        if data[i] == 4 {
            break;
        }
        if data[i] != 2 {
            break;
        }
        if i + 1 >= data.len() {
            break;
        }
        let lb = data[i + 1];
        let cnt: usize = if lb == 0 {
            256
        } else {
            lb as usize
        };
        if data.len() - (i + 2) < cnt {
            break;
        }
        let dl = data.len();
        let mut blk: Vec<u8> = Vec::new();
        let mut k: usize = 0;
        while k < cnt
            invariant
                k <= cnt,
                dl == data@.len(),
                i + 2 + cnt <= dl,
                blk@ =~= data@.subrange(i + 2 as int, i + 2 + k as int),
            decreases cnt - k,
        {
            blk.push(data[i + 2 + k]);
            k = k + 1;
        }
        proof {
            assert(blk@ =~= data@.subrange(i + 2 as int, i + 2 + cnt as int));
        }
        let ghost olddeep = acc.deep_view();
        acc.push(blk);
        proof {
            assert(acc.deep_view() =~~= olddeep.push(data@.subrange(
                i + 2 as int,
                i + 2 + cnt as int,
            )));
        }
        i = i + 2 + cnt;
    }
    // settle the outcome exactly as the grammar does
    if i >= data.len() {
        return Err(FrameError::Incomplete { needed: 1 });
    }
    if data[i] == 4 {
        if i + 1 >= data.len() {
            return Err(FrameError::Incomplete { needed: 1 });
        }
        let ck = data[i + 1];
        return Ok((acc, ck, i + 2));
    }
    if data[i] != 2 {
        return Err(FrameError::Malformed);
    }
    if i + 1 >= data.len() {
        return Err(FrameError::Incomplete { needed: 1 });
    }
    let lb = data[i + 1];
    let cnt: usize = if lb == 0 {
        256
    } else {
        lb as usize
    };
    Err(FrameError::Incomplete { needed: cnt - (data.len() - (i + 2)) })
}

/// The 8-bit wrapping sum of all block bytes, from `init`.
fn sum_blocks(blocks: &Vec<Vec<u8>>, init: u8) -> (r: u8)
    ensures
        r == sum8_blocks(blocks.deep_view(), init),
{
    let ghost deep = blocks.deep_view();
    let mut cur: u8 = init;
    proof {
        assert(deep.skip(0) =~= deep);
    }
    let mut bi: usize = 0;
    while bi < blocks.len()
        invariant
            bi <= blocks@.len(),
            deep == blocks.deep_view(),
            deep.len() == blocks@.len(),
            sum8_blocks(deep.skip(bi as int), cur) == sum8_blocks(deep, init),
        decreases blocks@.len() - bi,
    {
        let blk = &blocks[bi];
        proof {
            assert(deep.skip(bi as int)[0] == blk@);
            assert(deep.skip(bi as int).skip(1) =~= deep.skip(bi as int + 1));
            assert(blk@.skip(0) =~= blk@);
        }
        let mut k: usize = 0;
        while k < blk.len()
            invariant
                k <= blk@.len(),
                bi < deep.len(),
                deep == blocks.deep_view(),
                deep.len() == blocks@.len(),
                blk@ == deep[bi as int],
                sum8_blocks(deep.skip(bi as int + 1), sum8(blk@.skip(k as int), cur))
                    == sum8_blocks(deep, init),
            decreases blk@.len() - k,
        {
            proof {
                assert(blk@.skip(k as int)[0] == blk@[k as int]);
                assert(blk@.skip(k as int).skip(1) =~= blk@.skip(k as int + 1));
            }
            cur = ((cur as u32 + blk[k] as u32) % 256) as u8;
            k = k + 1;
        }
        proof {
            assert(blk@.skip(blk@.len() as int) =~= Seq::<u8>::empty());
        }
        bi = bi + 1;
    }
    proof {
        assert(deep.skip(deep.len() as int) =~= Seq::<Seq<u8>>::empty());
    }
    cur
}

/// The CRC-16 of the little-endian uncompressed size followed by all
/// block bytes.
fn crc_blocks(blocks: &Vec<Vec<u8>>, size: u32) -> (r: u16)
    ensures
        r == crc16_blocks(blocks.deep_view(), crc16_run(le4(size), 0)),
{
    let ghost deep = blocks.deep_view();
    let mut crc = Crc16::new();
    crc.update((size % 256) as u8);
    crc.update(((size >> 8) % 256) as u8);
    crc.update(((size >> 16) % 256) as u8);
    crc.update(((size >> 24) % 256) as u8);
    proof {
        let b0: u8 = (size % 256) as u8;
        let b1: u8 = ((size >> 8) % 256) as u8;
        let b2: u8 = ((size >> 16) % 256) as u8;
        let b3: u8 = ((size >> 24) % 256) as u8;
        let l4 = le4(size);
        let s1 = seq![b1, b2, b3];
        let s2 = seq![b2, b3];
        let s3 = seq![b3];
        let s4 = Seq::<u8>::empty();
        assert(l4.skip(1) =~= s1);
        assert(s1.skip(1) =~= s2);
        assert(s2.skip(1) =~= s3);
        assert(s3.skip(1) =~= s4);
        assert(crc16_run(l4, 0) == crc16_run(s1, crc16_byte(0, b0)));
        assert(crc16_run(s1, crc16_byte(0, b0)) == crc16_run(s2, crc16_byte(crc16_byte(0, b0), b1)));
        assert(crc16_run(s2, crc16_byte(crc16_byte(0, b0), b1)) == crc16_run(
            s3,
            crc16_byte(crc16_byte(crc16_byte(0, b0), b1), b2),
        ));
        assert(crc16_run(s4, crc16_byte(crc16_byte(crc16_byte(crc16_byte(0, b0), b1), b2), b3))
            == crc16_byte(crc16_byte(crc16_byte(crc16_byte(0, b0), b1), b2), b3));
        assert(crc16_run(s3, crc16_byte(crc16_byte(crc16_byte(0, b0), b1), b2)) == crc16_byte(
            crc16_byte(crc16_byte(crc16_byte(0, b0), b1), b2),
            b3,
        ));
        assert(crc@ == crc16_run(le4(size), 0));
        assert(deep.skip(0) =~= deep);
    }
    let mut bi: usize = 0;
    while bi < blocks.len()
        invariant
            bi <= blocks@.len(),
            deep == blocks.deep_view(),
            deep.len() == blocks@.len(),
            crc16_blocks(deep.skip(bi as int), crc@) == crc16_blocks(deep, crc16_run(le4(size), 0)),
        decreases blocks@.len() - bi,
    {
        let blk = &blocks[bi];
        proof {
            assert(deep.skip(bi as int)[0] == blk@);
            assert(deep.skip(bi as int).skip(1) =~= deep.skip(bi as int + 1));
            assert(blk@.skip(0) =~= blk@);
        }
        let mut k: usize = 0;
        while k < blk.len()
            invariant
                k <= blk@.len(),
                bi < deep.len(),
                deep == blocks.deep_view(),
                deep.len() == blocks@.len(),
                blk@ == deep[bi as int],
                crc16_blocks(deep.skip(bi as int + 1), crc16_run(blk@.skip(k as int), crc@))
                    == crc16_blocks(deep, crc16_run(le4(size), 0)),
            decreases blk@.len() - k,
        {
            proof {
                assert(blk@.skip(k as int)[0] == blk@[k as int]);
                assert(blk@.skip(k as int).skip(1) =~= blk@.skip(k as int + 1));
            }
            crc.update(blk[k]);
            k = k + 1;
        }
        proof {
            assert(blk@.skip(blk@.len() as int) =~= Seq::<u8>::empty());
        }
        bi = bi + 1;
    }
    proof {
        assert(deep.skip(deep.len() as int) =~= Seq::<Seq<u8>>::empty());
    }
    crc.finish()
}

/// Parse one B2 frame from the front of `data` and verify its
/// integrity: the result is the message and the number of bytes it
/// occupied, a demand for more bytes, or the reason the frame was
/// refused, exactly as `spec_parse_frame` says.
pub fn b2_message_block(data: &Vec<u8>) -> (r: Result<(CompressedMessage, usize), FrameError>)
    ensures
        match r {
            Ok((m, used)) => spec_parse_frame(data@) matches FrameOut::Done { msg, rest, .. }
                && m@ == msg && used as int == rest,
            Err(FrameError::Incomplete { needed }) => spec_parse_frame(data@)
                == (FrameOut::More { needed: needed as int }),
            Err(FrameError::Malformed) => spec_parse_frame(data@) is Malformed,
            Err(FrameError::ChecksumMismatch) => spec_parse_frame(data@) is BadChecksum,
            Err(FrameError::Crc16Mismatch) => spec_parse_frame(data@) is BadCrc,
        },
{
    let (title, offset, hrest) = match parse_header(data) {
        Err(e) => {
            return Err(e);
        },
        Ok(t) => t,
    };
    let (mut blocks, checksum, rest) = match parse_blocks(data, hrest) {
        Err(e) => {
            return Err(e);
        },
        Ok(t) => t,
    };
    let ghost raw = blocks.deep_view();

    let mut crc16: u16 = 0;
    let mut size: u32 = 0;
    if blocks.len() > 0 {
        if blocks[0].len() < 6 {
            return Err(FrameError::Malformed);
        }
        let b0 = &blocks[0];
        crc16 = b0[0] as u16 + b0[1] as u16 * 256;
        size = b0[2] as u32 + b0[3] as u32 * 256 + b0[4] as u32 * 65536 + b0[5] as u32 * 16777216;
        let mut peeled: Vec<u8> = Vec::new();
        let mut k: usize = 6;
        while k < b0.len()
            invariant
                6 <= k <= b0@.len(),
                b0@ == raw[0],
                raw.len() > 0,
                peeled@ =~= b0@.subrange(6, k as int),
            decreases b0@.len() - k,
        {
            peeled.push(b0[k]);
            k = k + 1;
        }
        proof {
            assert(peeled@ =~= raw[0].skip(6));
        }
        blocks[0] = peeled;
        proof {
            assert(blocks.deep_view() =~~= raw.update(0, raw[0].skip(6)));
        }
    }
    let ghost peeledblocks = blocks.deep_view();

    // 8-bit sum identity
    let c1: u32 = (crc16 as u32 + (crc16 >> 8) as u32) % 0x10000;
    let szsum: u64 = ((size as u64 + (size >> 8) as u64) + ((size >> 16) as u64 + (size
        >> 24) as u64)) % 0x100000000;
    let seed: u8 = (((c1 as u64 + szsum) % 0x100000000) % 256) as u8;
    proof {
        assert(seed == check_seed(crc16, size));
    }
    let total = sum_blocks(&blocks, seed);
    if (total as u32 + checksum as u32) % 256 != 0 {
        return Err(FrameError::ChecksumMismatch);
    }

    // CRC-16 identity
    let actual = crc_blocks(&blocks, size);
    if actual != crc16 {
        return Err(FrameError::Crc16Mismatch);
    }

    Ok((CompressedMessage { title, offset, crc16, uncompressed_size: size, blocks }, rest))
}

// ---------------------------------------------------------------------
// The B2F proposal grammar: `\r`-terminated ASCII lines offering,
// accepting, deferring or rejecting messages.
/// A field delimiter in a proposal line.
pub open spec fn is_delim(b: u8) -> bool {
    b == 0x20 || b == 0x0d
}

/// Whether byte `c` delimits proposal fields.
pub fn delimiter(c: u8) -> (r: bool)
    ensures
        r == is_delim(c),
{
    c == 0x20 || c == 0x0d
}

/// First index at or after `i` holding a delimiter (or the end).
pub open spec fn nondelim_end(s: Seq<u8>, i: int) -> int
    decreases s.len() - i,
{
    if i < 0 || i >= s.len() || is_delim(s[i]) {
        i
    } else {
        nondelim_end(s, i + 1)
    }
}

/// A non-delimiter field of one to `max` bytes: its bytes and the next
/// index.
pub open spec fn spec_field(s: Seq<u8>, i: int, max: int) -> Option<(Seq<u8>, int)> {
    let e = nondelim_end(s, i);
    let e2 = if e > i + max {
        i + max
    } else {
        e
    };
    if e2 <= i {
        None
    } else {
        Some((s.subrange(i, e2), e2))
    }
}

/// A decimal field of one to six digits whose value fits in sixteen
/// bits.
pub open spec fn spec_size_field(s: Seq<u8>, i: int) -> Option<(u16, int)> {
    let e = digits_end(s, i);
    let e2 = if e > i + 6 {
        i + 6
    } else {
        e
    };
    if e2 <= i {
        None
    } else if dec_value(s.subrange(i, e2)) > 0xffff {
        None
    } else {
        Some((dec_value(s.subrange(i, e2)) as u16, e2))
    }
}

/// A literal token at index `i`: the next index when it is there.
pub open spec fn spec_tag(s: Seq<u8>, i: int, t: Seq<u8>) -> Option<int> {
    if 0 <= i && i + t.len() <= s.len() && s.subrange(i, i + t.len()) == t {
        Some(i + t.len())
    } else {
        None
    }
}

/// The answer given to one proposed message.
#[derive(Clone, Copy, Debug, PartialEq, Eq, Structural)]
pub enum MessageChoice {
    /// Send it, resuming from this byte offset.
    Accept { offset: u16 },
    /// Ask again next session.
    Defer,
    /// Do not send it.
    Reject,
}

/// The class of a legacy proposal.
#[derive(Clone, Copy, Debug, PartialEq, Eq, Structural)]
pub enum MessageType {
    Private,
    Bulletin,
    Traffic,
}

/// One selection character (or accept-at-offset group) of an `FS` line.
pub open spec fn spec_selection_element(s: Seq<u8>, i: int) -> Option<(MessageChoice, int)> {
    if i < 0 || i >= s.len() {
        None
    } else if s[i] == 0x2b || s[i] == 0x59 || s[i] == 0x48 {
        Some((MessageChoice::Accept { offset: 0 }, i + 1))
    } else if s[i] == 0x21 || s[i] == 0x41 {
        match spec_size_field(s, i + 1) {
            None => None,
            Some((v, j)) => Some((MessageChoice::Accept { offset: v }, j)),
        }
    } else if s[i] == 0x3d || s[i] == 0x4c {
        Some((MessageChoice::Defer, i + 1))
    } else if s[i] == 0x2d || s[i] == 0x4e || s[i] == 0x52 || s[i] == 0x45 {
        Some((MessageChoice::Reject, i + 1))
    } else {
        None
    }
}

/// `count` selection elements in a row, from index `i`.
pub open spec fn spec_selection_elements(
    s: Seq<u8>,
    i: int,
    count: int,
    acc: Seq<MessageChoice>,
) -> Option<(Seq<MessageChoice>, int)>
    decreases count,
{
    if count <= 0 {
        Some((acc, i))
    } else {
        match spec_selection_element(s, i) {
            None => None,
            Some((c, j)) => spec_selection_elements(s, j, count - 1, acc.push(c)),
        }
    }
}

/// An `FS` line answering `count` proposals.
pub open spec fn spec_selection(s: Seq<u8>, count: int) -> Option<(Seq<MessageChoice>, int)> {
    match spec_tag(s, 0, seq![0x46u8, 0x53u8, 0x20u8]) {
        None => None,
        Some(j) => spec_selection_elements(s, j, count, Seq::empty()),
    }
}

/// Parse one selection element.
pub fn selection_element(data: &Vec<u8>, i: usize) -> (r: Option<(MessageChoice, usize)>)
    requires
        i <= data@.len(),
    ensures
        match r {
            Some((c, j)) => spec_selection_element(data@, i as int) == Some((c, j as int)) && i < j
                <= data@.len(),
            None => spec_selection_element(data@, i as int) is None,
        },
{
    if i >= data.len() {
        return None;
    }
    let b = data[i];
    if b == 0x2b || b == 0x59 || b == 0x48 {
        Some((MessageChoice::Accept { offset: 0 }, i + 1))
    } else if b == 0x21 || b == 0x41 {
        match size_field_at(data, i + 1) {
            None => None,
            Some((v, j)) => Some((MessageChoice::Accept { offset: v }, j)),
        }
    } else if b == 0x3d || b == 0x4c {
        Some((MessageChoice::Defer, i + 1))
    } else if b == 0x2d || b == 0x4e || b == 0x52 || b == 0x45 {
        Some((MessageChoice::Reject, i + 1))
    } else {
        None
    }
}

/// Parse an `FS` line answering `count` proposals: one choice per
/// proposal, in order.
pub fn selection(data: &Vec<u8>, count: usize) -> (r: Option<(Vec<MessageChoice>, usize)>)
    ensures
        match r {
            Some((cs, j)) => spec_selection(data@, count as int) == Some((cs@, j as int)),
            None => spec_selection(data@, count as int) is None,
        },
{
    let j = match tag_at(data, 0, 0x46, 0x53) {
        None => {
            proof {
                if spec_tag(data@, 0, seq![0x46u8, 0x53u8, 0x20u8]) is Some {
                    assert(data@.subrange(0, 3)[0] == data@[0]);
                    assert(data@.subrange(0, 3)[1] == data@[1]);
                    assert(data@.subrange(0, 2) =~= seq![0x46u8, 0x53u8]);
                }
            }
            return None;
        },
        Some(j) => j,
    };
    if j >= data.len() || data[j] != 0x20 {
        proof {
            assert(spec_tag(data@, 0, seq![0x46u8, 0x53u8, 0x20u8]) is None) by {
                if spec_tag(data@, 0, seq![0x46u8, 0x53u8, 0x20u8]) is Some {
                    assert(data@.subrange(0, 3)[0] == data@[0]);
                    assert(data@.subrange(0, 3)[1] == data@[1]);
                    assert(data@.subrange(0, 3)[2] == data@[2]);
                    assert(data@.subrange(0, 2)[0] == data@[0]);
                    assert(data@.subrange(0, 2)[1] == data@[1]);
                }
            }
        }
        return None;
    }
    proof {
        assert(data@.subrange(0, 3) =~= seq![0x46u8, 0x53u8, 0x20u8]) by {
            assert(data@.subrange(0, 2)[0] == data@[0]);
            assert(data@.subrange(0, 2)[1] == data@[1]);
            assert(data@.subrange(0, 2) == seq![0x46u8, 0x53u8]);
        }
    }
    let mut i: usize = j + 1;
    let mut out: Vec<MessageChoice> = Vec::new();
    let mut k: usize = 0;
    while k < count
        invariant
            k <= count,
            i <= data@.len(),
            j == 2,
            spec_tag(data@, 0, seq![0x46u8, 0x53u8, 0x20u8]) == Some(j + 1 as int),
            spec_selection_elements(data@, i as int, count - k, out@) == spec_selection_elements(
                data@,
                j + 1,
                count as int,
                Seq::empty(),
            ),
        decreases count - k,
    {
        match selection_element(data, i) {
            None => {
                return None;
            },
            Some((c, j2)) => {
                out.push(c);
                i = j2;
            },
        }
        k = k + 1;
    }
    Some((out, i))
}

/// Match the two-byte token `(a, b)` at index `i`.
fn tag_at(data: &Vec<u8>, i: usize, a: u8, b: u8) -> (r: Option<usize>)
    requires
        i <= data@.len(),
    ensures
        match r {
            Some(j) => spec_tag(data@, i as int, seq![a, b]) == Some(j as int) && j == i + 2 && j
                <= data@.len(),
            None => spec_tag(data@, i as int, seq![a, b]) is None,
        },
{
    if data.len() >= 2 && i <= data.len() - 2 && data[i] == a && data[i + 1] == b {
        proof {
            assert(data@.subrange(i as int, i + 2) =~= seq![a, b]);
        }
        Some(i + 2)
    } else {
        proof {
            if spec_tag(data@, i as int, seq![a, b]) is Some {
                assert(data@.subrange(i as int, i + 2)[0] == data@[i as int]);
                assert(data@.subrange(i as int, i + 2)[1] == data@[i + 1]);
            }
        }
        None
    }
}

/// Parse a non-delimiter field of one to `max` bytes at `i`.
fn field_at(data: &Vec<u8>, i: usize, max: usize) -> (r: Option<(Vec<u8>, usize)>)
    requires
        i <= data@.len(),
        max >= 1,
    ensures
        match r {
            Some((f, j)) => spec_field(data@, i as int, max as int) == Some((f@, j as int)) && i < j
                <= data@.len(),
            None => spec_field(data@, i as int, max as int) is None,
        },
{
    let mut e: usize = i;
    while e < data.len() && e - i < max && data[e] != 0x20 && data[e] != 0x0d
        invariant
            i <= e <= data@.len(),
            e - i <= max,
            forall|q: int| i <= q < e ==> !is_delim(#[trigger] data@[q]),
            nondelim_end(data@, e as int) == nondelim_end(data@, i as int),
        decreases data@.len() - e,
    {
        e = e + 1;
    }
    proof {
        if (e as int) < data@.len() && e - i < max {
            assert(nondelim_end(data@, e as int) == e);
        }
        if e == data@.len() {
            assert(nondelim_end(data@, e as int) == e);
        }
        lemma_nondelim_end_at_least(data@, i as int, e as int);
    }
    if e == i {
        return None;
    }
    let mut f: Vec<u8> = Vec::new();
    let mut k: usize = i;
    while k < e
        invariant
            i <= k <= e <= data@.len(),
            f@ =~= data@.subrange(i as int, k as int),
        decreases e - k,
    {
        f.push(data[k]);
        k = k + 1;
    }
    proof {
        assert(f@ =~= data@.subrange(i as int, e as int));
    }
    Some((f, e))
}

/// Recognize the legacy proposal opener `FA`.
pub fn fa_tag(data: &Vec<u8>) -> (r: Option<usize>)
    ensures
        match r {
            Some(j) => spec_tag(data@, 0, seq![0x46u8, 0x41u8]) == Some(j as int),
            None => spec_tag(data@, 0, seq![0x46u8, 0x41u8]) is None,
        },
{
    tag_at(data, 0, 0x46, 0x41)
}

/// Recognize the legacy proposal opener `FB`.
pub fn fb_tag(data: &Vec<u8>) -> (r: Option<usize>)
    ensures
        match r {
            Some(j) => spec_tag(data@, 0, seq![0x46u8, 0x42u8]) == Some(j as int),
            None => spec_tag(data@, 0, seq![0x46u8, 0x42u8]) is None,
        },
{
    tag_at(data, 0, 0x46, 0x42)
}

/// Recognize the Winlink proposal opener `FC`.
pub fn fc_tag(data: &Vec<u8>) -> (r: Option<usize>)
    ensures
        match r {
            Some(j) => spec_tag(data@, 0, seq![0x46u8, 0x43u8]) == Some(j as int),
            None => spec_tag(data@, 0, seq![0x46u8, 0x43u8]) is None,
        },
{
    tag_at(data, 0, 0x46, 0x43)
}

/// Recognize the end-of-proposal-batch line `F>`.
pub fn end_of_proposal_tag(data: &Vec<u8>) -> (r: Option<usize>)
    ensures
        match r {
            Some(j) => spec_tag(data@, 0, seq![0x46u8, 0x3eu8]) == Some(j as int),
            None => spec_tag(data@, 0, seq![0x46u8, 0x3eu8]) is None,
        },
{
    tag_at(data, 0, 0x46, 0x3e)
}

/// Recognize the selection opener `FS`.
pub fn select_tag(data: &Vec<u8>) -> (r: Option<usize>)
    ensures
        match r {
            Some(j) => spec_tag(data@, 0, seq![0x46u8, 0x53u8]) == Some(j as int),
            None => spec_tag(data@, 0, seq![0x46u8, 0x53u8]) is None,
        },
{
    tag_at(data, 0, 0x46, 0x53)
}

/// Recognize the no-more-messages line `FF`.
pub fn no_more(data: &Vec<u8>) -> (r: Option<usize>)
    ensures
        match r {
            Some(j) => spec_tag(data@, 0, seq![0x46u8, 0x46u8]) == Some(j as int),
            None => spec_tag(data@, 0, seq![0x46u8, 0x46u8]) is None,
        },
{
    tag_at(data, 0, 0x46, 0x46)
}

/// Recognize the end-of-session line `FQ`.
pub fn all_done(data: &Vec<u8>) -> (r: Option<usize>)
    ensures
        match r {
            Some(j) => spec_tag(data@, 0, seq![0x46u8, 0x51u8]) == Some(j as int),
            None => spec_tag(data@, 0, seq![0x46u8, 0x51u8]) is None,
        },
{
    tag_at(data, 0, 0x46, 0x51)
}

/// Whom a proposed message is for: the holding mailbox and the final
/// recipient.
#[derive(Clone, Debug, PartialEq, Eq)]
pub struct Addressee {
    pub mbo: Vec<u8>,
    pub recipient: Vec<u8>,
}

/// A legacy `FA`/`FB` proposal.
#[derive(Clone, Debug, PartialEq, Eq)]
pub struct Proposal {
    pub message_type: MessageType,
    pub sender: Vec<u8>,
    pub addressee: Addressee,
    pub message_id: Vec<u8>,
    pub message_size: u16,
}

impl Proposal {
    pub fn from_parts(parts: (MessageType, Vec<u8>, Addressee, Vec<u8>, u16)) -> (r: Proposal)
        ensures
            r.message_type == parts.0,
            r.sender == parts.1,
            r.addressee == parts.2,
            r.message_id == parts.3,
            r.message_size == parts.4,
    {
        let (message_type, sender, addressee, message_id, message_size) = parts;
        Proposal { message_type, sender, addressee, message_id, message_size }
    }
}

/// The optional sender block of a Winlink proposal.
#[derive(Clone, Debug, PartialEq, Eq)]
pub struct BqpProposalExtension {
    pub sender: Vec<u8>,
    pub addressee: Addressee,
}

impl BqpProposalExtension {
    pub fn from_parts(parts: (Vec<u8>, Addressee)) -> (r: BqpProposalExtension)
        ensures
            r.sender == parts.0,
            r.addressee == parts.1,
    {
        let (sender, addressee) = parts;
        BqpProposalExtension { sender, addressee }
    }
}

/// A Winlink `FC EM` proposal.
#[derive(Clone, Debug, PartialEq, Eq)]
pub struct WinlinkProposal {
    pub message_id: Vec<u8>,
    pub uncompressed_message_size: u16,
    pub compressed_message_size: u16,
    pub bqp_extension: Option<BqpProposalExtension>,
}

impl WinlinkProposal {
    pub fn from_parts(parts: (Vec<u8>, u16, u16, Option<BqpProposalExtension>)) -> (r:
        WinlinkProposal)
        ensures
            r.message_id == parts.0,
            r.uncompressed_message_size == parts.1,
            r.compressed_message_size == parts.2,
            r.bqp_extension == parts.3,
    {
        let (message_id, uncompressed_message_size, compressed_message_size, bqp_extension) =
            parts;
        WinlinkProposal {
            message_id,
            uncompressed_message_size,
            compressed_message_size,
            bqp_extension,
        }
    }
}

/// The class letter of a legacy proposal.
pub open spec fn spec_message_type(s: Seq<u8>, i: int) -> Option<(MessageType, int)> {
    if i < 0 || i >= s.len() {
        None
    } else if s[i] == 0x50 {
        Some((MessageType::Private, i + 1))
    } else if s[i] == 0x42 {
        Some((MessageType::Bulletin, i + 1))
    } else if s[i] == 0x54 {
        Some((MessageType::Traffic, i + 1))
    } else {
        None
    }
}

/// A space at index `i`.
pub open spec fn spec_space(s: Seq<u8>, i: int) -> Option<int> {
    if 0 <= i < s.len() && s[i] == 0x20 {
        Some(i + 1)
    } else {
        None
    }
}

/// A carriage return at index `i`.
pub open spec fn spec_cr(s: Seq<u8>, i: int) -> Option<int> {
    if 0 <= i < s.len() && s[i] == 0x0d {
        Some(i + 1)
    } else {
        None
    }
}

/// Parse the field tail shared by both proposal forms: space, sender
/// (one to six bytes), space, mailbox (one to forty), space, recipient
/// (one to six).
pub open spec fn spec_sender_addressee(s: Seq<u8>, i: int) -> Option<(Seq<u8>, Seq<u8>, Seq<u8>, int)> {
    match spec_space(s, i) {
        None => None,
        Some(i1) => match spec_field(s, i1, 6) {
            None => None,
            Some((sender, i2)) => match spec_space(s, i2) {
                None => None,
                Some(i3) => match spec_field(s, i3, 40) {
                    None => None,
                    Some((mbo, i4)) => match spec_space(s, i4) {
                        None => None,
                        Some(i5) => match spec_field(s, i5, 6) {
                            None => None,
                            Some((recipient, i6)) => Some((sender, mbo, recipient, i6)),
                        },
                    },
                },
            },
        },
    }
}

/// Parse a whole legacy proposal line:
/// `FA`/`FB`, type, sender, mailbox, recipient, message id, size, CR.
pub open spec fn spec_fbb_proposal(s: Seq<u8>) -> Option<(MessageType, Seq<u8>, Seq<u8>, Seq<u8>, Seq<u8>, u16, int)> {
    if !(spec_tag(s, 0, seq![0x46u8, 0x41u8]) is Some || spec_tag(s, 0, seq![0x46u8, 0x42u8])
        is Some) {
        None
    } else {
        match spec_space(s, 2) {
            None => None,
            Some(i1) => match spec_message_type(s, i1) {
                None => None,
                Some((mt, i2)) => match spec_sender_addressee(s, i2) {
                    None => None,
                    Some((sender, mbo, recipient, i3)) => match spec_space(s, i3) {
                        None => None,
                        Some(i4) => match spec_field(s, i4, 12) {
                            None => None,
                            Some((mid, i5)) => match spec_space(s, i5) {
                                None => None,
                                Some(i6) => match spec_size_field(s, i6) {
                                    None => None,
                                    Some((sz, i7)) => match spec_cr(s, i7) {
                                        None => None,
                                        Some(i8) => Some((mt, sender, mbo, recipient, mid, sz, i8)),
                                    },
                                },
                            },
                        },
                    },
                },
            },
        }
    }
}

/// Parse a whole Winlink proposal line: `FC EM`, message id,
/// uncompressed size, compressed size, an optional sender block, CR.
pub open spec fn spec_winlink_proposal(s: Seq<u8>) -> Option<(Seq<u8>, u16, u16, Option<(Seq<u8>, Seq<u8>, Seq<u8>)>, int)> {
    if spec_tag(s, 0, seq![0x46u8, 0x43u8]) is None {
        None
    } else {
        match spec_space(s, 2) {
            None => None,
            Some(i1) => if spec_tag(s, i1, seq![0x45u8, 0x4du8]) is None {
                None
            } else {
                match spec_space(s, i1 + 2) {
                    None => None,
                    Some(i2) => match spec_field(s, i2, 12) {
                        None => None,
                        Some((mid, i3)) => match spec_space(s, i3) {
                            None => None,
                            Some(i4) => match spec_size_field(s, i4) {
                                None => None,
                                Some((unc, i5)) => match spec_space(s, i5) {
                                    None => None,
                                    Some(i6) => match spec_size_field(s, i6) {
                                        None => None,
                                        Some((cmp, i7)) => {
                                            let ext = spec_sender_addressee(s, i7);
                                            match ext {
                                                Some((sender, mbo, recipient, i8)) => match
                                                    spec_cr(s, i8) {
                                                    None => match spec_cr(s, i7) {
                                                        None => None,
                                                        Some(i9) => Some((mid, unc, cmp, None, i9)),
                                                    },
                                                    Some(i9) => Some(
                                                        (
                                                            mid,
                                                            unc,
                                                            cmp,
                                                            Some((sender, mbo, recipient)),
                                                            i9,
                                                        ),
                                                    ),
                                                },
                                                None => match spec_cr(s, i7) {
                                                    None => None,
                                                    Some(i9) => Some((mid, unc, cmp, None, i9)),
                                                },
                                            }
                                        },
                                    },
                                },
                            },
                        },
                    },
                }
            },
        }
    }
}

/// Parse a legacy `FA`/`FB` proposal line.
pub fn fbb_proposal(data: &Vec<u8>) -> (r: Option<(Proposal, usize)>)
    ensures
        match r {
            Some((p, j)) => spec_fbb_proposal(data@) == Some(
                (
                    p.message_type,
                    p.sender@,
                    p.addressee.mbo@,
                    p.addressee.recipient@,
                    p.message_id@,
                    p.message_size,
                    j as int,
                ),
            ),
            None => spec_fbb_proposal(data@) is None,
        },
{
    let fa = fa_tag(data);
    let fb = fb_tag(data);
    if fa.is_none() && fb.is_none() {
        return None;
    }
    let i1 = match space_at(data, 2) {
        None => {
            return None;
        },
        Some(i) => i,
    };
    let (mt, i2) = match message_type(data, i1) {
        None => {
            return None;
        },
        Some(t) => t,
    };
    let (sender, mbo, recipient, i3) = match sender_addressee(data, i2) {
        None => {
            return None;
        },
        Some(t) => t,
    };
    let i4 = match space_at(data, i3) {
        None => {
            return None;
        },
        Some(i) => i,
    };
    let (mid, i5) = match field_at(data, i4, 12) {
        None => {
            return None;
        },
        Some(t) => t,
    };
    let i6 = match space_at(data, i5) {
        None => {
            return None;
        },
        Some(i) => i,
    };
    let (sz, i7) = match size_field_at(data, i6) {
        None => {
            return None;
        },
        Some(t) => t,
    };
    let i8 = match cr_at(data, i7) {
        None => {
            return None;
        },
        Some(i) => i,
    };
    Some(
        (
            Proposal::from_parts(
                (mt, sender, Addressee { mbo, recipient }, mid, sz),
            ),
            i8,
        ),
    )
}

/// Parse a Winlink `FC EM` proposal line.
pub fn winlink_proposal(data: &Vec<u8>) -> (r: Option<(WinlinkProposal, usize)>)
    ensures
        match r {
            Some((p, j)) => spec_winlink_proposal(data@) == Some(
                (
                    p.message_id@,
                    p.uncompressed_message_size,
                    p.compressed_message_size,
                    match p.bqp_extension {
                        Some(e) => Some((e.sender@, e.addressee.mbo@, e.addressee.recipient@)),
                        None => None,
                    },
                    j as int,
                ),
            ),
            None => spec_winlink_proposal(data@) is None,
        },
{
    if fc_tag(data).is_none() {
        return None;
    }
    let i1 = match space_at(data, 2) {
        None => {
            return None;
        },
        Some(i) => i,
    };
    if tag_at(data, i1, 0x45, 0x4d).is_none() {
        return None;
    }
    let i2 = match space_at(data, i1 + 2) {
        None => {
            return None;
        },
        Some(i) => i,
    };
    let (mid, i3) = match field_at(data, i2, 12) {
        None => {
            return None;
        },
        Some(t) => t,
    };
    let i4 = match space_at(data, i3) {
        None => {
            return None;
        },
        Some(i) => i,
    };
    let (unc, i5) = match size_field_at(data, i4) {
        None => {
            return None;
        },
        Some(t) => t,
    };
    let i6 = match space_at(data, i5) {
        None => {
            return None;
        },
        Some(i) => i,
    };
    let (cmp, i7) = match size_field_at(data, i6) {
        None => {
            return None;
        },
        Some(t) => t,
    };
    match sender_addressee(data, i7) {
        Some((sender, mbo, recipient, i8)) => {
            match cr_at(data, i8) {
                Some(i9) => Some(
                    (
                        WinlinkProposal::from_parts(
                            (
                                mid,
                                unc,
                                cmp,
                                Some(
                                    BqpProposalExtension::from_parts(
                                        (sender, Addressee { mbo, recipient }),
                                    ),
                                ),
                            ),
                        ),
                        i9,
                    ),
                ),
                None => {
                    match cr_at(data, i7) {
                        None => None,
                        Some(i9) => Some(
                            (WinlinkProposal::from_parts((mid, unc, cmp, None)), i9),
                        ),
                    }
                },
            }
        },
        None => {
            match cr_at(data, i7) {
                None => None,
                Some(i9) => Some((WinlinkProposal::from_parts((mid, unc, cmp, None)), i9)),
            }
        },
    }
}

/// Parse the space-separated sender, mailbox and recipient fields.
fn sender_addressee(data: &Vec<u8>, i: usize) -> (r: Option<(Vec<u8>, Vec<u8>, Vec<u8>, usize)>)
    requires
        i <= data@.len(),
    ensures
        match r {
            Some((sender, mbo, recipient, j)) => spec_sender_addressee(data@, i as int) == Some(
                (sender@, mbo@, recipient@, j as int),
            ) && j <= data@.len(),
            None => spec_sender_addressee(data@, i as int) is None,
        },
{
    let i1 = match space_at(data, i) {
        None => {
            return None;
        },
        Some(i) => i,
    };
    let (sender, i2) = match field_at(data, i1, 6) {
        None => {
            return None;
        },
        Some(t) => t,
    };
    let i3 = match space_at(data, i2) {
        None => {
            return None;
        },
        Some(i) => i,
    };
    let (mbo, i4) = match field_at(data, i3, 40) {
        None => {
            return None;
        },
        Some(t) => t,
    };
    let i5 = match space_at(data, i4) {
        None => {
            return None;
        },
        Some(i) => i,
    };
    let (recipient, i6) = match field_at(data, i5, 6) {
        None => {
            return None;
        },
        Some(t) => t,
    };
    Some((sender, mbo, recipient, i6))
}

/// Parse the proposal class letter.
pub fn message_type(data: &Vec<u8>, i: usize) -> (r: Option<(MessageType, usize)>)
    ensures
        match r {
            Some((t, j)) => spec_message_type(data@, i as int) == Some((t, j as int)) && j
                <= data@.len(),
            None => spec_message_type(data@, i as int) is None,
        },
{
    if i >= data.len() {
        return None;
    }
    let b = data[i];
    if b == 0x50 {
        Some((MessageType::Private, i + 1))
    } else if b == 0x42 {
        Some((MessageType::Bulletin, i + 1))
    } else if b == 0x54 {
        Some((MessageType::Traffic, i + 1))
    } else {
        None
    }
}

/// Match a space at `i`.
fn space_at(data: &Vec<u8>, i: usize) -> (r: Option<usize>)
    ensures
        match r {
            Some(j) => spec_space(data@, i as int) == Some(j as int) && j <= data@.len(),
            None => spec_space(data@, i as int) is None,
        },
{
    if i < data.len() && data[i] == 0x20 {
        Some(i + 1)
    } else {
        None
    }
}

/// Match a carriage return at `i`.
fn cr_at(data: &Vec<u8>, i: usize) -> (r: Option<usize>)
    ensures
        match r {
            Some(j) => spec_cr(data@, i as int) == Some(j as int) && j <= data@.len(),
            None => spec_cr(data@, i as int) is None,
        },
{
    if i < data.len() && data[i] == 0x0d {
        Some(i + 1)
    } else {
        None
    }
}

/// The feature flags this client advertises after connecting: B2
/// forwarding, basic binary, FBB compression, Winlink, internet relay,
/// HF, compressed batches, message ids and checksums.
pub open spec fn spec_banner_flags() -> Seq<u8> {
    seq![0x42u8, 0x32u8, 0x46u8, 0x57u8, 0x49u8, 0x48u8, 0x4au8, 0x4du8, 0x24u8]
}

/// The handshake banner sent after a connection comes up:
/// `[<ident>-B2FWIHJM$]` then `FF`, each line CR-terminated.
pub fn handshake_banner(ident: &Vec<u8>) -> (r: Vec<u8>)
    ensures
        r@ == seq![0x5bu8] + ident@ + seq![0x2du8] + spec_banner_flags() + seq![
            0x5du8,
            0x0du8,
            0x46u8,
            0x46u8,
            0x0du8,
        ],
{
    let mut out: Vec<u8> = Vec::new();
    out.push(0x5b);
    let mut k: usize = 0;
    while k < ident.len()
        invariant
            k <= ident@.len(),
            out@ =~= seq![0x5bu8] + ident@.subrange(0, k as int),
        decreases ident@.len() - k,
    {
        out.push(ident[k]);
        k = k + 1;
    }
    out.push(0x2d);
    out.push(0x42);
    out.push(0x32);
    out.push(0x46);
    out.push(0x57);
    out.push(0x49);
    out.push(0x48);
    out.push(0x4a);
    out.push(0x4d);
    out.push(0x24);
    out.push(0x5d);
    out.push(0x0d);
    out.push(0x46);
    out.push(0x46);
    out.push(0x0d);
    proof {
        assert(ident@.subrange(0, ident@.len() as int) =~= ident@);
        assert(out@ =~= seq![0x5bu8] + ident@ + seq![0x2du8] + spec_banner_flags() + seq![
            0x5du8,
            0x0du8,
            0x46u8,
            0x46u8,
            0x0du8,
        ]);
    }
    out
}

/// The delimiter scan never goes backwards.
proof fn lemma_nondelim_end_ge(s: Seq<u8>, i: int)
    ensures
        nondelim_end(s, i) >= i,
    decreases s.len() - i,
{
    if !(i < 0 || i >= s.len() || is_delim(s[i])) {
        lemma_nondelim_end_ge(s, i + 1);
    }
}

/// When everything before `e` is a non-delimiter, the delimiter scan
/// from `i` reaches at least `e`.
proof fn lemma_nondelim_end_at_least(s: Seq<u8>, i: int, e: int)
    requires
        0 <= i <= e <= s.len(),
        forall|q: int| i <= q < e ==> !is_delim(#[trigger] s[q]),
    ensures
        nondelim_end(s, i) >= e,
    decreases e - i,
{
    if i < e {
        lemma_nondelim_end_at_least(s, i + 1, e);
    } else {
        lemma_nondelim_end_ge(s, i);
    }
}

/// Parse a one-to-six digit decimal field whose value fits sixteen
/// bits.
fn size_field_at(data: &Vec<u8>, i: usize) -> (r: Option<(u16, usize)>)
    requires
        i <= data@.len(),
    ensures
        match r {
            Some((v, j)) => spec_size_field(data@, i as int) == Some((v, j as int)) && i < j
                <= data@.len(),
            None => spec_size_field(data@, i as int) is None,
        },
{
    let mut e: usize = i;
    while e < data.len() && e - i < 6 && 0x30 <= data[e] && data[e] <= 0x39
        invariant
            i <= e <= data@.len(),
            e - i <= 6,
            forall|q: int| i <= q < e ==> is_digit_byte(#[trigger] data@[q]),
            digits_end(data@, e as int) == digits_end(data@, i as int),
        decreases data@.len() - e,
    {
        e = e + 1;
    }
    proof {
        if (e as int) < data@.len() && e - i < 6 {
            assert(digits_end(data@, e as int) == e);
        }
        if e == data@.len() {
            assert(digits_end(data@, e as int) == e);
        }
        lemma_digits_end_at_least(data@, i as int, e as int);
    }
    if e == i {
        return None;
    }
    let mut v: u32 = 0;
    let mut k: usize = i;
    while k < e
        invariant
            i <= k <= e <= data@.len(),
            e - i <= 6,
            forall|q: int| i <= q < e ==> is_digit_byte(#[trigger] data@[q]),
            v == dec_value(data@.subrange(i as int, k as int)),
            v < pow10((k - i) as nat),
            v <= 999999,
        decreases e - k,
    {
        proof {
            assert(data@.subrange(i as int, k + 1).drop_last() =~= data@.subrange(
                i as int,
                k as int,
            ));
            assert(data@.subrange(i as int, k + 1).last() == data@[k as int]);
            assert(pow10(0) == 1);
            assert(pow10(1) == 10);
            assert(pow10(2) == 100);
            assert(pow10(3) == 1000);
            assert(pow10(4) == 10000);
            assert(pow10(5) == 100000);
            assert(pow10(6) == 1000000);
            lemma_pow10_le((k - i) as nat, 5);
        }
        v = v * 10 + (data[k] - 0x30) as u32;
        k = k + 1;
    }
    if v > 0xffff {
        return None;
    }
    Some((v as u16, e))
}

/// The digit scan never goes backwards.
proof fn lemma_digits_end_ge(s: Seq<u8>, i: int)
    ensures
        digits_end(s, i) >= i,
    decreases s.len() - i,
{
    if !(i < 0 || i >= s.len() || !is_digit_byte(s[i])) {
        lemma_digits_end_ge(s, i + 1);
    }
}

/// When everything before `e` is a digit, the digit scan from `i`
/// reaches at least `e`.
proof fn lemma_digits_end_at_least(s: Seq<u8>, i: int, e: int)
    requires
        0 <= i <= e <= s.len(),
        forall|q: int| i <= q < e ==> is_digit_byte(#[trigger] s[q]),
    ensures
        digits_end(s, i) >= e,
    decreases e - i,
{
    if i < e {
        lemma_digits_end_at_least(s, i + 1, e);
    } else {
        lemma_digits_end_ge(s, i);
    }
}

/// Powers of ten.
pub open spec fn pow10(n: nat) -> int
    decreases n,
{
    if n == 0 {
        1
    } else {
        10 * pow10((n - 1) as nat)
    }
}

/// Powers of ten grow with the exponent.
proof fn lemma_pow10_le(a: nat, b: nat)
    requires
        a <= b,
    ensures
        pow10(a) <= pow10(b),
    decreases b,
{
    if a < b {
        lemma_pow10_le(a, (b - 1) as nat);
        lemma_dec_pos((b - 1) as nat);
    }
}

/// Powers of ten are positive.
proof fn lemma_dec_pos(n: nat)
    ensures
        pow10(n) >= 1,
    decreases n,
{
    if n > 0 {
        lemma_dec_pos((n - 1) as nat);
    }
}

} // verus!
