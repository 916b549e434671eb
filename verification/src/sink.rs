//! The byte sink: the decompressed output held in memory, with an optional
//! limit on how much it takes.

use vstd::prelude::*;
use vstd::slice::slice_subrange;

verus! {

/// What a sink stands for: the bytes it holds, and how many more it will
/// take (`None`: any number).
pub struct Output {
    pub data: Seq<u8>,
    pub room: Option<nat>,
}

impl Output {
    /// How many of `n` offered bytes the sink takes.
    pub open spec fn accepts(self, n: nat) -> nat {
        match self.room {
            None => n,
            Some(room) => if n <= room { n } else { room },
        }
    }

    /// The sink after `bytes` were offered: it holds the prefix that it took.
    pub open spec fn write(self, bytes: Seq<u8>) -> Output {
        let n = self.accepts(bytes.len());
        Output {
            data: self.data + bytes.take(n as int),
            room: match self.room {
                None => None,
                Some(room) => Some((room - n) as nat),
            },
        }
    }
}

/// An in-memory sink.
pub struct ByteSink {
    data: Vec<u8>,
    room: Option<usize>,
}

impl ByteSink {
    pub closed spec fn view(&self) -> Output {
        Output {
            data: self.data@,
            room: match self.room {
                None => None,
                Some(room) => Some(room as nat),
            },
        }
    }

    /// An empty sink that takes any number of bytes.
    pub fn new() -> (s: Self)
        ensures
            s@ == (Output { data: Seq::empty(), room: None }),
    {
        ByteSink { data: Vec::new(), room: None }
    }

    /// An empty sink that takes `limit` bytes and no more.
    pub fn with_limit(limit: usize) -> (s: Self)
        ensures
            s@ == (Output { data: Seq::empty(), room: Some(limit as nat) }),
    {
        ByteSink { data: Vec::new(), room: Some(limit) }
    }

    /// Offers `buf` to the sink; returns how many bytes of it, from the
    /// front, the sink took.
    pub fn write(&mut self, buf: &[u8]) -> (n: usize)
        ensures
            n == old(self)@.accepts(buf@.len()),
            final(self)@ == old(self)@.write(buf@),
    {
        let n: usize = match self.room {
            None => buf.len(),
            Some(room) => if buf.len() <= room { buf.len() } else { room },
        };
        let taken = slice_subrange(buf, 0, n);
        let ghost before = self.data@;
        self.data.extend_from_slice(taken);
        assert(self.data@ =~= before + buf@.take(n as int));
        match self.room {
            None => {},
            Some(room) => {
                self.room = Some(room - n);
            },
        }
        n
    }

    /// Hands on what is buffered. A sink in memory buffers nothing: it
    /// stays as it is.
    pub fn flush(&mut self)
        ensures
            *final(self) == *old(self),
    {
    }

    /// The bytes that the sink holds.
    pub fn as_slice(&self) -> (bytes: &[u8])
        ensures
            bytes@ == self@.data,
    {
        self.data.as_slice()
    }

    /// The bytes that the sink holds, the sink given up.
    pub fn into_bytes(self) -> (bytes: Vec<u8>)
        ensures
            bytes@ == self@.data,
    {
        self.data
    }
}

} // verus!
