use vstd::prelude::*;
use vstd::string::*;
use vstd::utf8::*;

use crate::error::Error;
use crate::text::utf8_str;

verus! {

/// A fixed-width byte buffer of exactly `N` bytes.
///
/// Used as a text field it holds UTF-8 bytes; used as raw data it holds any
/// bytes. Buffers order by their bytes.
#[derive(Clone, Copy, Debug, PartialEq, Eq, PartialOrd, Ord, Hash)]
pub struct Fixed<const N: usize> {
    buf: [u8; N],
}

impl<const N: usize> View for Fixed<N> {
    type V = Seq<u8>;

    closed spec fn view(&self) -> Seq<u8> {
        self.buf@
    }
}

impl<const N: usize> Fixed<N> {
    /// A buffer always holds `N` bytes.
    pub proof fn lemma_len(&self)
        ensures
            self@.len() == N,
    {
    }

    /// Copies the first `N` bytes of `src`.
    pub fn from_slice(src: &[u8]) -> (r: Result<Self, Error>)
        ensures
            match r {
                Ok(f) => src@.len() >= N && f@ == src@.subrange(0, N as int),
                Err(e) => src@.len() < N && e == Error::TooShort,
            },
    {
        if src.len() < N {
            return Err(Error::TooShort);
        }
        let mut buf = [0u8; N];
        let mut i: usize = 0;
        while i < N
            invariant
                0 <= i <= N,
                N <= src@.len(),
                buf@.len() == N,
                forall|k: int| 0 <= k < i ==> buf@[k] == src@[k],
            decreases N - i,
        {
            buf[i] = src[i];
            i = i + 1;
        }
        let r = Fixed { buf };
        assert(r@ =~= src@.subrange(0, N as int));
        Ok(r)
    }

    /// Copies the `N` bytes of `src` that start at `offset`.
    pub fn from_slice_at(src: &[u8], offset: usize) -> (r: Result<Self, Error>)
        ensures
            match r {
                Ok(f) => offset + N <= src@.len() && f@ == src@.subrange(offset as int, offset + N),
                Err(e) => offset + N > src@.len() && e == Error::TooShort,
            },
    {
        let len = src.len();
        if offset > len || len - offset < N {
            return Err(Error::TooShort);
        }
        let mut buf = [0u8; N];
        let mut i: usize = 0;
        while i < N
            invariant
                0 <= i <= N,
                offset + N <= src@.len(),
                len == src@.len(),
                buf@.len() == N,
                forall|k: int| 0 <= k < i ==> buf@[k] == src@[offset + k],
            decreases N - i,
        {
            buf[i] = src[offset + i];
            i = i + 1;
        }
        let r = Fixed { buf };
        assert(r@ =~= src@.subrange(offset as int, offset + N));
        Ok(r)
    }

    /// The bytes as a string, when they are valid UTF-8.
    pub fn as_str(&self) -> (r: Result<&str, Error>)
        ensures
            r is Ok <==> valid_utf8(self@),
            r matches Ok(s) ==> s.spec_bytes() == self@,
            r matches Err(e) ==> e == Error::Utf8Error,
    {
        match utf8_str(self.buf.as_slice()) {
            Some(s) => Ok(s),
            None => Err(Error::Utf8Error),
        }
    }

    /// The bytes, in place.
    pub fn as_bytes(&self) -> (r: &[u8])
        ensures
            r@ == self@,
    {
        self.buf.as_slice()
    }

    /// A buffer whose every byte is `byte`.
    pub fn filled(byte: u8) -> (r: Self)
        ensures
            r@ == Seq::new(N as nat, |_i: int| byte),
    {
        let r = Fixed { buf: [byte; N] };
        assert(r@ =~= Seq::new(N as nat, |_i: int| byte));
        r
    }

    /// A buffer of `0x00` bytes.
    pub fn zeroed() -> (r: Self)
        ensures
            r@ == Seq::new(N as nat, |_i: int| 0u8),
    {
        Self::filled(0)
    }

    /// A buffer of spaces (`0x20`).
    pub fn spaced() -> (r: Self)
        ensures
            r@ == Seq::new(N as nat, |_i: int| 32u8),
    {
        Self::filled(32)
    }

    /// Copies `src` over the leading bytes: a longer `src` is cut to `N`
    /// bytes, a shorter one leaves the remaining bytes as they were.
    pub fn write_bytes(&mut self, src: &[u8])
        ensures
            final(self)@ == Seq::new(
                N as nat,
                |i: int|
                    if i < src@.len() {
                        src@[i]
                    } else {
                        old(self)@[i]
                    },
            ),
    {
        let len = if src.len() < N { src.len() } else { N };
        let mut i: usize = 0;
        while i < len
            invariant
                0 <= i <= len,
                len <= N,
                len <= src@.len(),
                len == N || len == src@.len(),
                self.buf@.len() == N,
                forall|k: int| 0 <= k < i ==> self.buf@[k] == src@[k],
                forall|k: int| i <= k < N ==> self.buf@[k] == old(self).buf@[k],
            decreases len - i,
        {
            self.buf[i] = src[i];
            i = i + 1;
        }
        assert(self@ =~= Seq::new(
            N as nat,
            |i: int|
                if i < src@.len() {
                    src@[i]
                } else {
                    old(self)@[i]
                },
        ));
    }

    /// Overwrites every byte with `byte`.
    pub fn fill(&mut self, byte: u8)
        ensures
            final(self)@ == Seq::new(N as nat, |_i: int| byte),
    {
        *self = Self::filled(byte);
    }

    /// Overwrites every byte with `0x00`.
    pub fn fill_zero(&mut self)
        ensures
            final(self)@ == Seq::new(N as nat, |_i: int| 0u8),
    {
        self.fill(0);
    }

    /// Overwrites every byte with a space (`0x20`).
    pub fn fill_space(&mut self)
        ensures
            final(self)@ == Seq::new(N as nat, |_i: int| 32u8),
    {
        self.fill(32);
    }

    /// The bytes as text: the string itself when valid UTF-8, `<?>` otherwise.
    pub fn to_display_string(&self) -> (r: String)
        ensures
            valid_utf8(self@) ==> encode_utf8(r@) == self@,
            !valid_utf8(self@) ==> r@ == "<?>"@,
    {
        match utf8_str(self.buf.as_slice()) {
            Some(s) => s.to_owned(),
            None => "<?>".to_owned(),
        }
    }
}

impl<const N: usize> Default for Fixed<N> {
    /// A buffer of `0x00` bytes.
    fn default() -> (r: Self)
        ensures
            r@ == Seq::new(N as nat, |_i: int| 0u8),
    {
        Self::zeroed()
    }
}

impl<const N: usize> From<[u8; N]> for Fixed<N> {
    /// Takes the array's bytes as they are.
    fn from(buf: [u8; N]) -> (r: Self)
        ensures
            r@ == buf@,
    {
        Fixed { buf }
    }
}

impl<const N: usize> vstd::std_specs::convert::FromSpecImpl<[u8; N]> for Fixed<N> {
    open spec fn obeys_from_spec() -> bool {
        true
    }

    closed spec fn from_spec(buf: [u8; N]) -> Self {
        Fixed { buf }
    }
}

impl<'a, const N: usize> From<&'a [u8; N]> for Fixed<N> {
    /// Copies the array's bytes as they are.
    fn from(buf: &'a [u8; N]) -> (r: Self)
        ensures
            r@ == buf@,
    {
        Fixed { buf: *buf }
    }
}

impl<'a, const N: usize> vstd::std_specs::convert::FromSpecImpl<&'a [u8; N]> for Fixed<N> {
    open spec fn obeys_from_spec() -> bool {
        true
    }

    closed spec fn from_spec(buf: &'a [u8; N]) -> Self {
        Fixed { buf: *buf }
    }
}

} // verus!
