use crate::serialize::{decode, frame, DecodeError, Fault, Parsed};
use crate::types::{ParseFrom, RedisError, RedisResult, Value};
use vstd::prelude::*;
use vstd::slice::{slice_subrange, slice_to_vec};

verus! {

/// Appends the RESP line terminator to an inline command.
pub fn command_line(command: &str) -> (r: String)
    ensures
        r@ == command@ + seq!['\r', '\n'],
{
    let mut line = String::from_str(command);
    proof {
        reveal_strlit("\r\n");
    }
    line.append("\r\n");
    line
}

/// Turns what a command got back, a reply or the message of a failure to
/// obtain one, into the caller's type, or into an error that names the command.
pub fn command_result<T: ParseFrom<Value>>(command: String, reply: Result<Value, String>) -> (r:
    RedisResult<T>)
    ensures
        match reply {
            Err(m) => r matches Err(e) && e.command == command && e.message == m,
            Ok(v) => {
                &&& r is Ok <==> T::accepts(v)
                &&& r matches Ok(out) ==> T::converts_to(v, out)
                &&& r matches Err(e) ==> e.command == command && e.message@ == T::failure(v)
            },
        },
{
    match reply {
        Err(message) => Err(RedisError { command, message }),
        Ok(value) => match value.try_into() {
            Ok(out) => Ok(out),
            Err(message) => Err(RedisError { command, message }),
        },
    }
}

/// Bytes received from the server that no reply has taken yet.
pub struct ReplyReader {
    pending: Vec<u8>,
}

impl View for ReplyReader {
    type V = Seq<u8>;

    closed spec fn view(&self) -> Seq<u8> {
        self.pending@
    }
}

impl ReplyReader {
    pub fn new() -> (r: Self)
        ensures
            r@ == Seq::<u8>::empty(),
    {
        ReplyReader { pending: Vec::new() }
    }

    /// Adds bytes read from the stream.
    pub fn feed(&mut self, data: &[u8])
        ensures
            final(self)@ == old(self)@ + data@,
    {
        let mut i: usize = 0;
        while i < data.len()
            invariant
                i <= data@.len(),
                self@ == old(self)@ + data@.subrange(0, i as int),
            decreases data@.len() - i,
        {
            self.pending.push(data[i]);
            i = i + 1;
            assert(self@ =~= old(self)@ + data@.subrange(0, i as int));
        }
        assert(data@.subrange(0, data@.len() as int) =~= data@);
    }

    /// Takes the next complete reply off the front of the pending bytes.
    /// `Ok(None)` asks for more bytes: the pending ones end inside a frame.
    /// A server error frame is taken off like a reply; on any other failure
    /// the pending bytes stay as they were.
    pub fn next_reply(&mut self) -> (r: Result<Option<Value>, DecodeError>)
        ensures
            match frame(old(self)@) {
                Parsed::Done(v, n) => r matches Ok(Some(x)) && x@ == v && final(self)@ == old(self)@.subrange(
                    n as int,
                    old(self)@.len() as int,
                ),
                Parsed::Failed(Fault::Incomplete) => r matches Ok(None) && final(self)@ == old(self)@,
                Parsed::Failed(Fault::Server(text, n)) => r matches Err(e) && e@ == Fault::Server(text, n)
                    && final(self)@ == old(self)@.subrange(n as int, old(self)@.len() as int),
                Parsed::Failed(f) => r matches Err(e) && e@ == f && final(self)@ == old(self)@,
            },
    {
        match decode(self.pending.as_slice()) {
            Ok((value, n)) => {
                let len = self.pending.len();
                let rest = slice_to_vec(slice_subrange(self.pending.as_slice(), n, len));
                self.pending = rest;
                Ok(Some(value))
            },
            Err(DecodeError::Incomplete) => Ok(None),
            Err(DecodeError::Server(text, n)) => {
                let len = self.pending.len();
                let rest = slice_to_vec(slice_subrange(self.pending.as_slice(), n, len));
                self.pending = rest;
                Err(DecodeError::Server(text, n))
            },
            Err(e) => Err(e),
        }
    }
}

} // verus!
