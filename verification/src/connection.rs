//! Per-connection state machine.
//!
//! A connection owns a lifecycle tag and fixed-capacity read and write
//! buffers; the socket itself lives outside the library.  One request is
//! served per connection: once a complete request has been read,
//! [`Connection::process_request`] parses it, dispatches it against the
//! store, frames the response into the write buffer and advances the
//! state to `ReadyToWrite`; a malformed request gets an error response
//! and sends the connection to `Closing`.  After the response has been
//! written out, the reactor resets the write buffer and retires the
//! connection.

use crate::commands::{kv_of, lemma_kv_value_bounded, lemma_parse_arg_bounds, spec_parse,
    store_inv, Command, CommandView};
use crate::scalablehashmap::ScalableHashMap;
use crate::serialization::{response_err, spec_response_err, spec_response_integer,
    spec_response_nil};
use crate::wire::{le32_bytes, put_le32};
use vstd::pervasive::VecAdditionalExecFns;
use vstd::prelude::*;
use vstd::string::StringSliceAdditionalSpecFns;

verus! {

/// Cap on a request or response body; buffers hold four more bytes for
/// the length prefix.
pub const MAX_MESSAGE_SIZE: usize = 4096;

/// Error code carried by an error response to a bad request.
pub const BAD_REQUEST_CODE: u32 = 1;

#[derive(Debug, Clone, Copy, PartialEq, Eq, Structural)]
pub enum ConnectionState {
    ReadyToRead,
    ReadyToWrite,
    Closing,
}

pub struct Connection {
    pub state: ConnectionState,
    pub read_buffer_size: usize,
    pub read_buffer: Vec<u8>,
    pub write_buffer_size: usize,
    pub write_buffer: Vec<u8>,
    pub write_buffer_sent: usize,
}

/// The response body a command produces against a store.
pub open spec fn spec_command_response(kv: Map<Seq<u8>, Option<Seq<u8>>>, c: CommandView) -> Seq<
    u8,
> {
    match c {
        CommandView::Get(k) => crate::commands::get::spec_get_response(kv, k),
        CommandView::Put(k, v) => spec_response_nil(),
        CommandView::Del(k) => spec_response_integer(
            if kv.dom().contains(k) {
                1
            } else {
                0
            },
        ),
    }
}

/// The store after a command has run against it.
pub open spec fn spec_command_store(kv: Map<Seq<u8>, Option<Seq<u8>>>, c: CommandView) -> Map<
    Seq<u8>,
    Option<Seq<u8>>,
> {
    match c {
        CommandView::Get(k) => kv,
        CommandView::Put(k, v) => kv.insert(k, Some(v)),
        CommandView::Del(k) => kv.remove(k),
    }
}

/// The bytes of the error message sent for a rejected request.
pub open spec fn bad_request_bytes() -> Seq<u8> {
    seq![98u8, 97u8, 100u8, 32u8, 114u8, 101u8, 113u8, 117u8, 101u8, 115u8, 116u8]
}

impl Connection {
    /// Both buffers hold exactly the length prefix plus the message cap.
    pub open spec fn wf(self) -> bool {
        &&& self.read_buffer@.len() == 4 + MAX_MESSAGE_SIZE
        &&& self.write_buffer@.len() == 4 + MAX_MESSAGE_SIZE
    }

    pub fn new() -> (r: Connection)
        ensures
            r.wf(),
            r.state == ConnectionState::ReadyToRead,
            r.read_buffer_size == 0,
            r.write_buffer_size == 0,
            r.write_buffer_sent == 0,
            forall|i: int| 0 <= i < r.read_buffer@.len() ==> r.read_buffer@[i] == 0,
            forall|i: int| 0 <= i < r.write_buffer@.len() ==> r.write_buffer@[i] == 0,
    {
        Connection {
            state: ConnectionState::ReadyToRead,
            read_buffer_size: 0,
            read_buffer: zero_buffer(),
            write_buffer_size: 0,
            write_buffer: zero_buffer(),
            write_buffer_sent: 0,
        }
    }

    pub fn state(&self) -> (r: ConnectionState)
        ensures
            r == self.state,
    {
        self.state
    }

    pub fn set_state(&mut self, state: ConnectionState)
        ensures
            final(self).state == state,
            final(self).read_buffer == old(self).read_buffer,
            final(self).read_buffer_size == old(self).read_buffer_size,
            final(self).write_buffer == old(self).write_buffer,
            final(self).write_buffer_size == old(self).write_buffer_size,
            final(self).write_buffer_sent == old(self).write_buffer_sent,
    {
        self.state = state;
    }

    pub fn get_write_buffer(&self) -> (r: &Vec<u8>)
        ensures
            r == self.write_buffer,
    {
        &self.write_buffer
    }

    /// Clears the write side back to an all-zero buffer.
    pub fn reset_write_buffer(&mut self)
        ensures
            final(self).state == old(self).state,
            final(self).read_buffer == old(self).read_buffer,
            final(self).read_buffer_size == old(self).read_buffer_size,
            final(self).write_buffer_size == 0,
            final(self).write_buffer_sent == 0,
            final(self).write_buffer@.len() == 4 + MAX_MESSAGE_SIZE,
            forall|i: int|
                0 <= i < final(self).write_buffer@.len() ==> final(self).write_buffer@[i] == 0,
    {
        self.write_buffer_size = 0;
        self.write_buffer_sent = 0;
        self.write_buffer = zero_buffer();
    }

    /// Clears the read side back to an all-zero buffer.
    pub fn reset_read_buffer(&mut self)
        ensures
            final(self).state == old(self).state,
            final(self).write_buffer == old(self).write_buffer,
            final(self).write_buffer_size == old(self).write_buffer_size,
            final(self).write_buffer_sent == old(self).write_buffer_sent,
            final(self).read_buffer_size == 0,
            final(self).read_buffer@.len() == 4 + MAX_MESSAGE_SIZE,
            forall|i: int|
                0 <= i < final(self).read_buffer@.len() ==> final(self).read_buffer@[i] == 0,
    {
        self.read_buffer_size = 0;
        self.read_buffer = zero_buffer();
    }

    /// Parses the request in the read buffer, runs it against the store,
    /// and frames the response — its length, then its body — into the
    /// write buffer.  A well-formed request advances the connection to
    /// `ReadyToWrite`; a rejected one gets an error response and sends
    /// the connection to `Closing`.  The store changes exactly as the
    /// command demands, and not at all on a rejected request.
    pub fn process_request(&mut self, db: &mut ScalableHashMap)
        requires
            old(self).wf(),
            store_inv(*old(db)),
            old(db).spec_size() < usize::MAX,
        ensures
            final(self).wf(),
            store_inv(*final(db)),
            final(self).read_buffer == old(self).read_buffer,
            match spec_parse(old(self).read_buffer@) {
                Ok(c) => {
                    &&& final(self).state == ConnectionState::ReadyToWrite
                    &&& kv_of(final(db).entry_ms()) == spec_command_store(
                        kv_of(old(db).entry_ms()),
                        c,
                    )
                    &&& {
                        let body = spec_command_response(kv_of(old(db).entry_ms()), c);
                        final(self).write_buffer@ == (le32_bytes(body.len() as u32) + body) + old(
                            self,
                        ).write_buffer@.skip(4 + body.len() as int)
                    }
                },
                Err(e) => {
                    &&& final(self).state == ConnectionState::Closing
                    &&& final(db).entry_ms() == old(db).entry_ms()
                    &&& {
                        let body = spec_response_err(BAD_REQUEST_CODE, bad_request_bytes());
                        final(self).write_buffer@ == (le32_bytes(body.len() as u32) + body) + old(
                            self,
                        ).write_buffer@.skip(4 + body.len() as int)
                    }
                },
            },
    {
        let ghost kv0 = kv_of(old(db).entry_ms());
        proof {
            lemma_parse_arg_bounds(self.read_buffer@);
        }
        let mut output: Vec<u8> = Vec::new();
        let ok = match Command::parse_request(self.read_buffer.as_slice()) {
            Ok(c) => {
                match c {
                    Command::Get(key) => {
                        proof {
                            if kv0.dom().contains(key@) {
                                lemma_kv_value_bounded(*db, key@);
                            }
                        }
                        crate::commands::get::invoke(db, key, &mut output);
                    },
                    Command::Put(key, value) => {
                        crate::commands::set::invoke(db, key, value, &mut output);
                    },
                    Command::Del(key) => {
                        crate::commands::del::invoke(db, key, &mut output);
                    },
                }
                true
            },
            Err(_) => {
                proof {
                    reveal_strlit("bad request");
                    assert(vstd::string::is_ascii("bad request")) by {
                        assert(vstd::utf8::is_ascii_chars("bad request"@));
                    }
                    vstd::string::is_ascii_spec_bytes("bad request");
                }
                response_err(&mut output, BAD_REQUEST_CODE, "bad request");
                proof {
                    assert("bad request".spec_bytes() =~= bad_request_bytes());
                    assert(output@ == spec_response_err(BAD_REQUEST_CODE, bad_request_bytes()));
                }
                false
            },
        };
        proof {
            assert(output@.len() <= MAX_MESSAGE_SIZE);
        }
        let len = output.len();
        let mut response: Vec<u8> = Vec::new();
        put_le32(&mut response, len as u32);
        response.append(&mut output);
        copy_into(&mut self.write_buffer, &response);
        if ok {
            self.state = ConnectionState::ReadyToWrite;
        } else {
            self.state = ConnectionState::Closing;
        }
    }
}

/// A zeroed buffer of the fixed connection-buffer capacity.
fn zero_buffer() -> (r: Vec<u8>)
    ensures
        r@.len() == 4 + MAX_MESSAGE_SIZE,
        forall|i: int| 0 <= i < r@.len() ==> r@[i] == 0,
{
    let mut v: Vec<u8> = Vec::new();
    let mut i: usize = 0;
    while i < 4 + MAX_MESSAGE_SIZE
        invariant
            i <= 4 + MAX_MESSAGE_SIZE,
            v@.len() == i,
            forall|j: int| 0 <= j < i ==> v@[j] == 0,
        decreases 4 + MAX_MESSAGE_SIZE - i,
    {
        v.push(0);
        i = i + 1;
    }
    v
}

/// Copies `src` over the front of `dst`, leaving the tail in place.
fn copy_into(dst: &mut Vec<u8>, src: &Vec<u8>)
    requires
        src@.len() <= old(dst)@.len(),
    ensures
        final(dst)@ == src@ + old(dst)@.skip(src@.len() as int),
        final(dst)@.len() == old(dst)@.len(),
{
    let mut i: usize = 0;
    while i < src.len()
        invariant
            i <= src@.len(),
            src@.len() <= dst@.len(),
            dst@.len() == old(dst)@.len(),
            forall|j: int| 0 <= j < i ==> dst@[j] == src@[j],
            forall|j: int| i <= j < dst@.len() ==> dst@[j] == old(dst)@[j],
        decreases src@.len() - i,
    {
        let b = src[i];
        dst.set(i, b);
        i = i + 1;
    }
    proof {
        assert(dst@ =~= src@ + old(dst)@.skip(src@.len() as int));
    }
}

} // verus!
