use vstd::prelude::*;

use crate::error::KvsError;

verus! {

/// The unit of mutation recorded in the log and exchanged with callers.
/// Keys and values are opaque byte sequences.
#[derive(Debug, Clone)]
pub enum CommandData {
    SetCmd { key: Vec<u8>, value: Vec<u8> },
    RemoveCmd { key: Vec<u8> },
    GetCmd { key: Vec<u8> },
}

/// The mathematical model of a command: the same shape over byte sequences.
pub enum CmdModel {
    SetCmd { key: Seq<u8>, value: Seq<u8> },
    RemoveCmd { key: Seq<u8> },
    GetCmd { key: Seq<u8> },
}

impl View for CommandData {
    type V = CmdModel;

    open spec fn view(&self) -> CmdModel {
        match self {
            CommandData::SetCmd { key, value } => CmdModel::SetCmd { key: key@, value: value@ },
            CommandData::RemoveCmd { key } => CmdModel::RemoveCmd { key: key@ },
            CommandData::GetCmd { key } => CmdModel::GetCmd { key: key@ },
        }
    }
}

/// Key and value fit a 4-byte big-endian length prefix.
pub open spec fn cmd_wf(m: CmdModel) -> bool {
    match m {
        CmdModel::SetCmd { key, value } => key.len() < 0x1_0000_0000 && value.len()
            < 0x1_0000_0000,
        CmdModel::RemoveCmd { key } => key.len() < 0x1_0000_0000,
        CmdModel::GetCmd { key } => key.len() < 0x1_0000_0000,
    }
}

impl CommandData {
    pub fn set(key: Vec<u8>, value: Vec<u8>) -> (r: Self)
        ensures
            r@ == (CmdModel::SetCmd { key: key@, value: value@ }),
    {
        Self::SetCmd { key, value }
    }

    pub fn remove(key: Vec<u8>) -> (r: Self)
        ensures
            r@ == (CmdModel::RemoveCmd { key: key@ }),
    {
        Self::RemoveCmd { key }
    }

    pub fn get(key: Vec<u8>) -> (r: Self)
        ensures
            r@ == (CmdModel::GetCmd { key: key@ }),
    {
        Self::GetCmd { key }
    }
}

/// The 4-byte big-endian image of a 32-bit integer.
pub open spec fn be32(n: u32) -> Seq<u8> {
    seq![(n >> 24) as u8, (n >> 16) as u8, (n >> 8) as u8, n as u8]
}

/// The 32-bit integer read back from 4 big-endian bytes.
pub open spec fn from32(b0: u8, b1: u8, b2: u8, b3: u8) -> u32 {
    ((b0 as u32) << 24) | ((b1 as u32) << 16) | ((b2 as u32) << 8) | (b3 as u32)
}

pub proof fn lemma_be32_round_trip(n: u32)
    ensures
        from32(be32(n)[0], be32(n)[1], be32(n)[2], be32(n)[3]) == n,
{
    assert(((((n >> 24) as u8) as u32) << 24) | ((((n >> 16) as u8) as u32) << 16) | ((((n
        >> 8) as u8) as u32) << 8) | ((n as u8) as u32) == n) by (bit_vector);
}

pub proof fn lemma_be32_from32(b0: u8, b1: u8, b2: u8, b3: u8)
    ensures
        be32(from32(b0, b1, b2, b3)) == seq![b0, b1, b2, b3],
{
    let n = from32(b0, b1, b2, b3);
    assert((((b0 as u32) << 24 | (b1 as u32) << 16 | (b2 as u32) << 8 | (b3 as u32)) >> 24) as u8
        == b0) by (bit_vector);
    assert((((b0 as u32) << 24 | (b1 as u32) << 16 | (b2 as u32) << 8 | (b3 as u32)) >> 16) as u8
        == b1) by (bit_vector);
    assert((((b0 as u32) << 24 | (b1 as u32) << 16 | (b2 as u32) << 8 | (b3 as u32)) >> 8) as u8
        == b2) by (bit_vector);
    assert(((b0 as u32) << 24 | (b1 as u32) << 16 | (b2 as u32) << 8 | (b3 as u32)) as u8
        == b3) by (bit_vector);
    assert(be32(n) =~= seq![b0, b1, b2, b3]);
}

/// The compact binary encoding of a command: a tag byte, then each field as a
/// 4-byte big-endian length followed by the bytes themselves.
pub open spec fn cmd_encoding(m: CmdModel) -> Seq<u8> {
    match m {
        CmdModel::SetCmd { key, value } => seq![1u8] + be32(key.len() as u32) + key + be32(
            value.len() as u32,
        ) + value,
        CmdModel::RemoveCmd { key } => seq![2u8] + be32(key.len() as u32) + key,
        CmdModel::GetCmd { key } => seq![3u8] + be32(key.len() as u32) + key,
    }
}

/// The command parsed back from an encoding; `None` on any malformed input,
/// including trailing bytes.
pub open spec fn cmd_decoding(s: Seq<u8>) -> Option<CmdModel> {
    if s.len() < 5 {
        None
    } else {
        let n = from32(s[1], s[2], s[3], s[4]) as int;
        if s[0] == 1 {
            if s.len() < 9 + n {
                None
            } else {
                let m = from32(s[5 + n], s[6 + n], s[7 + n], s[8 + n]) as int;
                if s.len() == 9 + n + m {
                    Some(
                        CmdModel::SetCmd {
                            key: s.subrange(5, 5 + n),
                            value: s.subrange(9 + n, 9 + n + m),
                        },
                    )
                } else {
                    None
                }
            }
        } else if s[0] == 2 {
            if s.len() == 5 + n {
                Some(CmdModel::RemoveCmd { key: s.subrange(5, 5 + n) })
            } else {
                None
            }
        } else if s[0] == 3 {
            if s.len() == 5 + n {
                Some(CmdModel::GetCmd { key: s.subrange(5, 5 + n) })
            } else {
                None
            }
        } else {
            None
        }
    }
}

/// Decoding the encoding of any command yields that command back.
pub proof fn lemma_command_round_trip(m: CmdModel)
    requires
        cmd_wf(m),
    ensures
        cmd_decoding(cmd_encoding(m)) == Some(m),
{
    match m {
        CmdModel::SetCmd { key, value } => {
            let s = cmd_encoding(m);
            let n = key.len() as int;
            let v = value.len() as int;
            assert(s.len() == 9 + n + v);
            lemma_be32_round_trip(key.len() as u32);
            lemma_be32_round_trip(value.len() as u32);
            assert(s[0] == 1);
            assert(s[1] == be32(key.len() as u32)[0]);
            assert(s[2] == be32(key.len() as u32)[1]);
            assert(s[3] == be32(key.len() as u32)[2]);
            assert(s[4] == be32(key.len() as u32)[3]);
            assert(from32(s[1], s[2], s[3], s[4]) == key.len() as u32);
            assert(s[5 + n] == be32(value.len() as u32)[0]);
            assert(s[6 + n] == be32(value.len() as u32)[1]);
            assert(s[7 + n] == be32(value.len() as u32)[2]);
            assert(s[8 + n] == be32(value.len() as u32)[3]);
            assert(from32(s[5 + n], s[6 + n], s[7 + n], s[8 + n]) == value.len() as u32);
            assert(s.subrange(5, 5 + n) =~= key);
            assert(s.subrange(9 + n, 9 + n + v) =~= value);
        },
        CmdModel::RemoveCmd { key } => {
            let s = cmd_encoding(m);
            let n = key.len() as int;
            assert(s.len() == 5 + n);
            lemma_be32_round_trip(key.len() as u32);
            assert(s[0] == 2);
            assert(s[1] == be32(key.len() as u32)[0]);
            assert(s[2] == be32(key.len() as u32)[1]);
            assert(s[3] == be32(key.len() as u32)[2]);
            assert(s[4] == be32(key.len() as u32)[3]);
            assert(from32(s[1], s[2], s[3], s[4]) == key.len() as u32);
            assert(s.subrange(5, 5 + n) =~= key);
        },
        CmdModel::GetCmd { key } => {
            let s = cmd_encoding(m);
            let n = key.len() as int;
            assert(s.len() == 5 + n);
            lemma_be32_round_trip(key.len() as u32);
            assert(s[0] == 3);
            assert(s[1] == be32(key.len() as u32)[0]);
            assert(s[2] == be32(key.len() as u32)[1]);
            assert(s[3] == be32(key.len() as u32)[2]);
            assert(s[4] == be32(key.len() as u32)[3]);
            assert(from32(s[1], s[2], s[3], s[4]) == key.len() as u32);
            assert(s.subrange(5, 5 + n) =~= key);
        },
    }
}

/// Appends the 4-byte big-endian image of `n`.
pub fn push_be32(out: &mut Vec<u8>, n: u32)
    ensures
        final(out)@ == old(out)@ + be32(n),
{
    out.push((n >> 24) as u8);
    out.push((n >> 16) as u8);
    out.push((n >> 8) as u8);
    out.push(n as u8);
    proof {
        assert(out@ =~= old(out)@ + be32(n));
    }
}

/// Appends a copy of `src`.
pub fn extend_bytes(out: &mut Vec<u8>, src: &Vec<u8>)
    ensures
        final(out)@ == old(out)@ + src@,
{
    let mut i: usize = 0;
    while i < src.len()
        invariant
            i <= src@.len(),
            out@ == old(out)@ + src@.take(i as int),
        decreases src@.len() - i,
    {
        out.push(src[i]);
        proof {
            assert(old(out)@ + src@.take(i + 1) =~= (old(out)@ + src@.take(i as int)).push(
                src@[i as int],
            ));
        }
        i += 1;
    }
    proof {
        assert(src@.take(src@.len() as int) =~= src@);
    }
}

/// Reads the 4-byte big-endian integer at `p`.
pub fn read_be32(bytes: &Vec<u8>, p: usize) -> (r: u32)
    requires
        p + 4 <= bytes@.len(),
    ensures
        r == from32(bytes@[p as int], bytes@[p + 1], bytes@[p + 2], bytes@[p + 3]),
{
    let total = bytes.len();
    proof {
        assert(p + 4 <= total);
    }
    ((bytes[p] as u32) << 24) | ((bytes[p + 1] as u32) << 16) | ((bytes[p + 2] as u32) << 8) | (
    bytes[p + 3] as u32)
}

/// Copies `src[start..end]` out as a fresh vector.
pub fn bytes_range(src: &Vec<u8>, start: usize, end: usize) -> (r: Vec<u8>)
    requires
        start <= end <= src@.len(),
    ensures
        r@ == src@.subrange(start as int, end as int),
{
    let mut out: Vec<u8> = Vec::new();
    let mut i: usize = start;
    while i < end
        invariant
            start <= i <= end <= src@.len(),
            out@ == src@.subrange(start as int, i as int),
        decreases end - i,
    {
        out.push(src[i]);
        proof {
            assert(src@.subrange(start as int, i + 1) =~= src@.subrange(start as int, i as int).push(
                src@[i as int],
            ));
        }
        i += 1;
    }
    out
}

/// Encodes a command into its compact binary form.
pub fn encode_command(cmd: &CommandData) -> (r: Vec<u8>)
    requires
        cmd_wf(cmd@),
    ensures
        r@ == cmd_encoding(cmd@),
        r@.len() >= 5,
{
    let mut out: Vec<u8> = Vec::new();
    match cmd {
        CommandData::SetCmd { key, value } => {
            out.push(1u8);
            push_be32(&mut out, key.len() as u32);
            extend_bytes(&mut out, key);
            push_be32(&mut out, value.len() as u32);
            extend_bytes(&mut out, value);
            proof {
                assert(out@ =~= cmd_encoding(cmd@));
            }
        },
        CommandData::RemoveCmd { key } => {
            out.push(2u8);
            push_be32(&mut out, key.len() as u32);
            extend_bytes(&mut out, key);
            proof {
                assert(out@ =~= cmd_encoding(cmd@));
            }
        },
        CommandData::GetCmd { key } => {
            out.push(3u8);
            push_be32(&mut out, key.len() as u32);
            extend_bytes(&mut out, key);
            proof {
                assert(out@ =~= cmd_encoding(cmd@));
            }
        },
    }
    out
}

/// Decodes a command from its compact binary form; a malformed payload is a
/// fatal `DecodeError`, never skipped.
pub fn decode_command(bytes: &Vec<u8>) -> (r: Result<CommandData, KvsError>)
    ensures
        match r {
            Ok(c) => cmd_decoding(bytes@) == Some(c@) && cmd_wf(c@),
            Err(e) => cmd_decoding(bytes@) is None && e == KvsError::DecodeError,
        },
{
    if bytes.len() < 5 {
        return Err(KvsError::DecodeError);
    }
    let tag = bytes[0];
    let n32 = read_be32(bytes, 1);
    let rest = bytes.len() - 5;
    if tag == 1 {
        if rest < 4 {
            return Err(KvsError::DecodeError);
        }
        if n32 as u64 > (rest - 4) as u64 {
            return Err(KvsError::DecodeError);
        }
        let n = n32 as usize;
        let m32 = read_be32(bytes, 5 + n);
        if m32 as u64 != (rest - 4 - n) as u64 {
            return Err(KvsError::DecodeError);
        }
        let m = m32 as usize;
        let key = bytes_range(bytes, 5, 5 + n);
        let value = bytes_range(bytes, 9 + n, 9 + n + m);
        Ok(CommandData::SetCmd { key, value })
    } else if tag == 2 {
        if n32 as u64 != rest as u64 {
            return Err(KvsError::DecodeError);
        }
        let key = bytes_range(bytes, 5, bytes.len());
        Ok(CommandData::RemoveCmd { key })
    } else if tag == 3 {
        if n32 as u64 != rest as u64 {
            return Err(KvsError::DecodeError);
        }
        let key = bytes_range(bytes, 5, bytes.len());
        Ok(CommandData::GetCmd { key })
    } else {
        Err(KvsError::DecodeError)
    }
}

} // verus!
