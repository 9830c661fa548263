use vstd::prelude::*;

use crate::cmd::{
    be32, bytes_range, cmd_decoding, cmd_encoding, cmd_wf, decode_command, encode_command,
    extend_bytes, from32, lemma_be32_round_trip, push_be32, read_be32, CmdModel, CommandData,
};
use crate::error::KvsError;

verus! {

/// The 32-bit big-endian length prefix read at position `p`.
pub open spec fn from32_at(s: Seq<u8>, p: int) -> u32 {
    from32(s[p], s[p + 1], s[p + 2], s[p + 3])
}

/// The payload byte segments framed in a record stream, starting at `p`.
/// A zero length prefix, a truncated prefix or a torn payload ends the walk.
pub open spec fn frame_payloads_from(s: Seq<u8>, p: int) -> Seq<Seq<u8>>
    decreases s.len() - p,
    when 0 <= p <= s.len()
{
    if p + 4 > s.len() {
        Seq::empty()
    } else {
        let n = from32_at(s, p) as int;
        if n == 0 {
            Seq::empty()
        } else if p + 4 + n > s.len() {
            Seq::empty()
        } else {
            seq![s.subrange(p + 4, p + 4 + n)] + frame_payloads_from(s, p + 4 + n)
        }
    }
}

/// The commands replayed from a record stream starting at `p`; `None` when a
/// complete record fails to decode, which is fatal and never skipped.
pub open spec fn replay_cmds_from(s: Seq<u8>, p: int) -> Option<Seq<CmdModel>>
    decreases s.len() - p,
    when 0 <= p <= s.len()
{
    if p + 4 > s.len() {
        Some(Seq::empty())
    } else {
        let n = from32_at(s, p) as int;
        if n == 0 {
            Some(Seq::empty())
        } else if p + 4 + n > s.len() {
            Some(Seq::empty())
        } else {
            match cmd_decoding(s.subrange(p + 4, p + 4 + n)) {
                Option::None => Option::<Seq<CmdModel>>::None,
                Some(c) => match replay_cmds_from(s, p + 4 + n) {
                    Option::None => Option::<Seq<CmdModel>>::None,
                    Some(rest) => Some(seq![c] + rest),
                },
            }
        }
    }
}

pub open spec fn replay_cmds(s: Seq<u8>) -> Option<Seq<CmdModel>> {
    replay_cmds_from(s, 0)
}

/// A well-formed record stream: complete, decodable records tile it exactly.
pub open spec fn wf_log_from(s: Seq<u8>, p: int) -> bool
    decreases s.len() - p,
    when 0 <= p <= s.len()
{
    if p == s.len() {
        true
    } else if p + 4 > s.len() {
        false
    } else {
        let n = from32_at(s, p) as int;
        &&& n >= 1
        &&& p + 4 + n <= s.len()
        &&& cmd_decoding(s.subrange(p + 4, p + 4 + n)) is Some
        &&& wf_log_from(s, p + 4 + n)
    }
}

pub open spec fn wf_log(s: Seq<u8>) -> bool {
    wf_log_from(s, 0)
}

/// Replay of a well-formed stream never fails.
pub proof fn lemma_wf_log_replay(s: Seq<u8>, p: int)
    requires
        0 <= p <= s.len(),
        wf_log_from(s, p),
    ensures
        replay_cmds_from(s, p) is Some,
    decreases s.len() - p,
{
    if p == s.len() {
    } else {
        let n = from32_at(s, p) as int;
        lemma_wf_log_replay(s, p + 4 + n);
    }
}

/// Appending one complete record to a well-formed stream keeps it well
/// formed and extends its replay by exactly that record's command.
pub proof fn lemma_replay_append(s: Seq<u8>, p: int, payload: Seq<u8>, c: CmdModel)
    requires
        0 <= p <= s.len(),
        wf_log_from(s, p),
        1 <= payload.len() < 0x1_0000_0000,
        cmd_decoding(payload) == Some(c),
    ensures
        wf_log_from(s + be32(payload.len() as u32) + payload, p),
        replay_cmds_from(s, p) is Some,
        replay_cmds_from(s + be32(payload.len() as u32) + payload, p) == Some(
            replay_cmds_from(s, p).unwrap() + seq![c],
        ),
    decreases s.len() - p,
{
    lemma_wf_log_replay(s, p);
    let t = s + be32(payload.len() as u32) + payload;
    let n = payload.len() as int;
    assert(t.len() == s.len() + 4 + n);
    if p == s.len() {
        lemma_be32_round_trip(payload.len() as u32);
        assert(t[p] == be32(payload.len() as u32)[0]);
        assert(t[p + 1] == be32(payload.len() as u32)[1]);
        assert(t[p + 2] == be32(payload.len() as u32)[2]);
        assert(t[p + 3] == be32(payload.len() as u32)[3]);
        assert(from32_at(t, p) == payload.len() as u32);
        assert(t.subrange(p + 4, p + 4 + n) =~= payload);
        assert(wf_log_from(t, p + 4 + n));
        assert(replay_cmds_from(t, p + 4 + n) == Some(Seq::<CmdModel>::empty()));
        assert(replay_cmds_from(t, p) == Some(seq![c] + Seq::<CmdModel>::empty()));
        assert(replay_cmds_from(s, p) == Some(Seq::<CmdModel>::empty()));
        assert(seq![c] + Seq::<CmdModel>::empty() =~= Seq::<CmdModel>::empty() + seq![c]);
    } else {
        let m = from32_at(s, p) as int;
        assert(t[p] == s[p]);
        assert(t[p + 1] == s[p + 1]);
        assert(t[p + 2] == s[p + 2]);
        assert(t[p + 3] == s[p + 3]);
        assert(from32_at(t, p) == from32_at(s, p));
        assert(t.subrange(p + 4, p + 4 + m) =~= s.subrange(p + 4, p + 4 + m));
        lemma_replay_append(s, p + 4 + m, payload, c);
        let c0 = cmd_decoding(s.subrange(p + 4, p + 4 + m)).unwrap();
        let rest = replay_cmds_from(s, p + 4 + m).unwrap();
        assert(replay_cmds_from(s, p) == Some(seq![c0] + rest));
        assert(replay_cmds_from(t, p + 4 + m) == Some(rest + seq![c]));
        assert(replay_cmds_from(t, p) == Some(seq![c0] + (rest + seq![c])));
        assert(seq![c0] + (rest + seq![c]) =~= (seq![c0] + rest) + seq![c]);
    }
}

/// A reader over the byte image of a mapped, read-only log segment.
pub struct MmapReader {
    pub bytes: Vec<u8>,
    pub pos: usize,
}

impl MmapReader {
    pub fn new(bytes: Vec<u8>) -> (r: Self)
        ensures
            r.bytes@ == bytes@,
            r.pos == 0,
    {
        MmapReader { bytes, pos: 0 }
    }

    /// A bounds-checked copy of the byte range `[start, end)`.
    pub fn read_zone(&self, start: usize, end: usize) -> (r: Result<Vec<u8>, KvsError>)
        ensures
            match r {
                Ok(v) => start <= end <= self.bytes@.len() && v@ == self.bytes@.subrange(
                    start as int,
                    end as int,
                ),
                Err(e) => (start > end || end > self.bytes@.len()) && e == KvsError::IOError,
            },
    {
        if start > end || end > self.bytes.len() {
            return Err(KvsError::IOError);
        }
        Ok(bytes_range(&self.bytes, start, end))
    }

    /// All framed payload segments of this reader, in order.
    pub fn get_vec_bytes(&self) -> (r: Vec<Vec<u8>>)
        ensures
            r.deep_view() == frame_payloads_from(self.bytes@, 0),
    {
        let mut out: Vec<Vec<u8>> = Vec::new();
        let mut p: usize = 0;
        proof {
            assert(out.deep_view() + frame_payloads_from(self.bytes@, 0) =~= frame_payloads_from(
                self.bytes@,
                0,
            ));
        }
        loop
            invariant
                p <= self.bytes@.len(),
                frame_payloads_from(self.bytes@, 0) == out.deep_view() + frame_payloads_from(
                    self.bytes@,
                    p as int,
                ),
            ensures
                p <= self.bytes@.len(),
                frame_payloads_from(self.bytes@, 0) == out.deep_view() + frame_payloads_from(
                    self.bytes@,
                    p as int,
                ),
                frame_payloads_from(self.bytes@, p as int) == Seq::<Seq<u8>>::empty(),
            decreases self.bytes@.len() - p,
        {
            if self.bytes.len() - p < 4 {
                proof {
                    assert(frame_payloads_from(self.bytes@, p as int) =~= Seq::<Seq<u8>>::empty());
                }
                break ;
            }
            let n32 = read_be32(&self.bytes, p);
            if n32 == 0 {
                proof {
                    assert(frame_payloads_from(self.bytes@, p as int) =~= Seq::<Seq<u8>>::empty());
                }
                break ;
            }
            let n = n32 as usize;
            if self.bytes.len() - p - 4 < n {
                proof {
                    assert(frame_payloads_from(self.bytes@, p as int) =~= Seq::<Seq<u8>>::empty());
                }
                break ;
            }
            let payload = bytes_range(&self.bytes, p + 4, p + 4 + n);
            proof {
                let prev = out.deep_view();
                assert(frame_payloads_from(self.bytes@, p as int) == seq![payload@]
                    + frame_payloads_from(self.bytes@, p + 4 + n));
            }
            let ghost prev = out.deep_view();
            out.push(payload);
            proof {
                assert(out.deep_view() =~~= prev + seq![payload@]);
                assert(prev + (seq![payload@] + frame_payloads_from(self.bytes@, p + 4 + n)) =~= (
                prev + seq![payload@]) + frame_payloads_from(self.bytes@, p + 4 + n));
            }
            p = p + 4 + n;
        }
        proof {
            assert(out.deep_view() + Seq::<Seq<u8>>::empty() =~= out.deep_view());
        }
        out
    }
}

/// A writer over the byte image of the active, writable log segment; its
/// cursor always sits at the end of what has been written.
pub struct MmapWriter {
    pub bytes: Vec<u8>,
}

impl MmapWriter {
    pub fn new() -> (r: Self)
        ensures
            r.bytes@.len() == 0,
    {
        MmapWriter { bytes: Vec::new() }
    }

    pub fn pos(&self) -> (r: usize)
        ensures
            r == self.bytes@.len(),
    {
        self.bytes.len()
    }

    /// The position where the next record's payload will start: the write
    /// cursor plus the 4-byte length prefix.
    pub fn get_data_pos_usize(&self) -> (r: usize)
        requires
            self.bytes@.len() + 4 <= usize::MAX,
        ensures
            r == self.bytes@.len() + 4,
    {
        self.bytes.len() + 4
    }
}

/// A disk pointer locating one record inside a specific segment: the segment
/// generation, the payload start offset and the payload length.
#[derive(Debug, Clone, Copy, PartialEq, Eq, Structural)]
pub struct CommandPos {
    pub gen: u64,
    pub pos: usize,
    pub len: u64,
}

/// A decoded command together with where its payload sat in its segment.
#[derive(Debug)]
pub struct CommandPackage {
    pub cmd: CommandData,
    pub pos: usize,
    pub len: usize,
}

/// The command views carried by a sequence of packages.
pub open spec fn pkg_cmds(v: Seq<CommandPackage>) -> Seq<CmdModel> {
    v.map(|i: int, p: CommandPackage| p.cmd@)
}

/// The package's pointer designates, within the stream `s`, exactly the
/// payload its command was decoded from.
#[verifier::opaque]
pub open spec fn pkg_located(s: Seq<u8>, p: CommandPackage) -> bool {
    &&& p.pos + p.len <= s.len()
    &&& cmd_decoding(s.subrange(p.pos as int, p.pos + p.len)) == Some(p.cmd@)
}

impl CommandPackage {
    pub fn new(cmd: CommandData, pos: usize, len: usize) -> (r: Self)
        ensures
            r.cmd == cmd,
            r.pos == pos,
            r.len == len,
    {
        CommandPackage { cmd, pos, len }
    }

    /// Appends one framed record and returns the next payload start position.
    pub fn write(wr: &mut MmapWriter, cmd: &CommandData) -> (r: Result<usize, KvsError>)
        requires
            cmd_wf(cmd@),
            old(wr).bytes@.len() + 8 + cmd_encoding(cmd@).len() <= usize::MAX,
        ensures
            final(wr).bytes@ == old(wr).bytes@ + be32(cmd_encoding(cmd@).len() as u32)
                + cmd_encoding(cmd@),
            r == Ok::<usize, KvsError>((final(wr).bytes@.len() + 4) as usize),
    {
        let vec = encode_command(cmd);
        let i = vec.len();
        push_be32(&mut wr.bytes, i as u32);
        extend_bytes(&mut wr.bytes, &vec);
        Ok(wr.get_data_pos_usize())
    }

    /// Reads and decodes the single record payload in `[start, end)`.
    pub fn form_pos(reader: &MmapReader, start: usize, end: usize) -> (r: Result<
        CommandPackage,
        KvsError,
    >)
        ensures
            match r {
                Ok(p) => {
                    &&& start <= end <= reader.bytes@.len()
                    &&& cmd_decoding(reader.bytes@.subrange(start as int, end as int)) == Some(
                        p.cmd@,
                    )
                    &&& p.pos == start
                    &&& p.len == end - start
                },
                Err(e) => if start <= end && end <= reader.bytes@.len() {
                    e == KvsError::DecodeError && cmd_decoding(
                        reader.bytes@.subrange(start as int, end as int),
                    ) is None
                } else {
                    e == KvsError::IOError
                },
            },
    {
        let cmd_u8 = reader.read_zone(start, end)?;
        let cmd = decode_command(&cmd_u8)?;
        Ok(CommandPackage::new(cmd, start, end - start))
    }

    /// Decodes every complete record of `bytes` in order, also returning how
    /// many bytes the complete records cover; stops cleanly at a zero length
    /// prefix or a torn tail, and fails only on a complete record that does
    /// not decode.
    #[verifier::rlimit(100)]
    #[verifier::spinoff_prover]
    pub fn scan_records(bytes: &Vec<u8>) -> (r: Result<(Vec<CommandPackage>, usize), KvsError>)
        ensures
            match r {
                Ok((v, consumed)) => {
                    &&& consumed <= bytes@.len()
                    &&& replay_cmds(bytes@) == Some(pkg_cmds(v@))
                    &&& forall|i: int| 0 <= i < v@.len() ==> cmd_wf(#[trigger] v@[i].cmd@)
                    &&& forall|i: int|
                        0 <= i < v@.len() ==> (#[trigger] v@[i].pos) == (if i == 0 {
                            4int
                        } else {
                            v@[i - 1].pos + v@[i - 1].len + 4
                        })
                    &&& forall|i: int|
                        0 <= i < v@.len() ==> (#[trigger] v@[i].pos) + v@[i].len <= consumed
                            && pkg_located(bytes@, v@[i])
                },
                Err(e) => e == KvsError::DecodeError && replay_cmds(bytes@) is None,
            },
    {
        let mut out: Vec<CommandPackage> = Vec::new();
        let mut p: usize = 0;
        proof {
            assert(bytes@.take(0) =~= Seq::<u8>::empty());
            assert(pkg_cmds(out@) =~= Seq::<CmdModel>::empty());
        }
        loop
            invariant
                p <= bytes@.len(),
                replay_cmds(bytes@) == (match replay_cmds_from(bytes@, p as int) {
                    Option::None => Option::<Seq<CmdModel>>::None,
                    Some(rest) => Some(pkg_cmds(out@) + rest),
                }),
                forall|i: int| 0 <= i < out@.len() ==> cmd_wf(#[trigger] out@[i].cmd@),
                out@.len() == 0 ==> p == 0,
                out@.len() > 0 ==> out@.last().pos + out@.last().len == p,
                forall|i: int|
                    0 <= i < out@.len() ==> (#[trigger] out@[i].pos) == (if i == 0 {
                        4int
                    } else {
                        out@[i - 1].pos + out@[i - 1].len + 4
                    }),
                forall|i: int|
                    0 <= i < out@.len() ==> (#[trigger] out@[i].pos) + out@[i].len <= p
                        && pkg_located(bytes@, out@[i]),
            ensures
                p <= bytes@.len(),
                replay_cmds(bytes@) == (match replay_cmds_from(bytes@, p as int) {
                    Option::None => Option::<Seq<CmdModel>>::None,
                    Some(rest) => Some(pkg_cmds(out@) + rest),
                }),
                forall|i: int| 0 <= i < out@.len() ==> cmd_wf(#[trigger] out@[i].cmd@),
                out@.len() == 0 ==> p == 0,
                out@.len() > 0 ==> out@.last().pos + out@.last().len == p,
                forall|i: int|
                    0 <= i < out@.len() ==> (#[trigger] out@[i].pos) == (if i == 0 {
                        4int
                    } else {
                        out@[i - 1].pos + out@[i - 1].len + 4
                    }),
                forall|i: int|
                    0 <= i < out@.len() ==> (#[trigger] out@[i].pos) + out@[i].len <= p
                        && pkg_located(bytes@, out@[i]),
                replay_cmds_from(bytes@, p as int) == Some(Seq::<CmdModel>::empty()),
            decreases bytes@.len() - p,
        {
            if bytes.len() - p < 4 {
                break ;
            }
            let n32 = read_be32(bytes, p);
            if n32 == 0 {
                break ;
            }
            let n = n32 as usize;
            if bytes.len() - p - 4 < n {
                break ;
            }
            let payload = bytes_range(bytes, p + 4, p + 4 + n);
            match decode_command(&payload) {
                Err(_) => {
                    proof {
                        assert(replay_cmds_from(bytes@, p as int) is None);
                    }
                    return Err(KvsError::DecodeError);
                },
                Ok(cmd) => {
                    let ghost prev = out@;
                    let pkg = CommandPackage::new(cmd, p + 4, n);
                    out.push(pkg);
                    proof {
                        assert(pkg_cmds(out@) =~= pkg_cmds(prev) + seq![cmd@]);
                        let rest = replay_cmds_from(bytes@, p + 4 + n);
                        assert(replay_cmds_from(bytes@, p as int) == (match rest {
                            Option::None => Option::<Seq<CmdModel>>::None,
                            Some(r2) => Some(seq![cmd@] + r2),
                        }));
                        if rest is Some {
                            assert(pkg_cmds(prev) + (seq![cmd@] + rest.unwrap()) =~= pkg_cmds(out@)
                                + rest.unwrap());
                        }
                        assert(out@ == prev.push(pkg));
                        assert forall|i: int| 0 <= i < out@.len() implies (#[trigger] out@[i].pos)
                            == (if i == 0 {
                            4int
                        } else {
                            out@[i - 1].pos + out@[i - 1].len + 4
                        }) by {
                            if i < prev.len() {
                                assert(out@[i] == prev[i]);
                                if i > 0 {
                                    assert(out@[i - 1] == prev[i - 1]);
                                }
                            } else {
                                assert(out@[i] == pkg);
                                if i > 0 {
                                    assert(out@[i - 1] == prev[i - 1]);
                                    assert(prev.last() == prev[i - 1]);
                                }
                            }
                        }
                        assert forall|i: int| 0 <= i < out@.len() implies (#[trigger] out@[i].pos)
                            + out@[i].len <= p + 4 + n && pkg_located(bytes@, out@[i]) by {
                            if i < prev.len() {
                                assert(out@[i] == prev[i]);
                            } else {
                                assert(out@[i] == pkg);
                                assert(pkg_located(bytes@, pkg)) by {
                                    reveal(pkg_located);
                                    assert(bytes@.subrange(p + 4, p + 4 + n) == payload@);
                                }
                            }
                        }
                    }
                    p = p + 4 + n;
                },
            }
        }
        proof {
            assert(replay_cmds_from(bytes@, p as int) == Some(Seq::<CmdModel>::empty()));
            assert(pkg_cmds(out@) + Seq::<CmdModel>::empty() =~= pkg_cmds(out@));
        }
        Ok((out, p))
    }

    /// Decodes every complete record reachable from the start of the reader.
    pub fn form_read_to_vec(reader: &mut MmapReader) -> (r: Result<Vec<CommandPackage>, KvsError>)
        ensures
            final(reader).bytes@ == old(reader).bytes@,
            final(reader).pos == 0,
            match r {
                Ok(v) => {
                    &&& replay_cmds(old(reader).bytes@) == Some(pkg_cmds(v@))
                    &&& forall|i: int|
                        0 <= i < v@.len() ==> (#[trigger] v@[i].pos) == (if i == 0 {
                            4int
                        } else {
                            v@[i - 1].pos + v@[i - 1].len + 4
                        })
                    &&& forall|i: int|
                        0 <= i < v@.len() ==> pkg_located(old(reader).bytes@, #[trigger] v@[i])
                },
                Err(e) => e == KvsError::DecodeError && replay_cmds(old(reader).bytes@) is None,
            },
    {
        reader.pos = 0;
        let (v, _consumed) = Self::scan_records(&reader.bytes)?;
        proof {
            assert(reader.bytes@ == old(reader).bytes@);
            assert forall|i: int| 0 <= i < v@.len() implies pkg_located(
                old(reader).bytes@,
                #[trigger] v@[i],
            ) by {
                assert(v@[i].pos + v@[i].len <= _consumed);
                assert(pkg_located(reader.bytes@, v@[i]));
            }
        }
        Ok(v)
    }
}

} // verus!
