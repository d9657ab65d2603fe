//! The toy ping/pong wire protocol: two fixed messages and their exact
//! wire forms.  Moving them over a socket is the surrounding program's
//! concern; what the bytes mean is decided here.

use vstd::prelude::*;
use vstd::string::StrSliceExecFns;
use crate::error::MyError;

verus! {

/// A message of the ping protocol.
#[derive(Debug, Clone, Copy, PartialEq, Eq, Structural)]
pub enum RedisMessage {
    Ping,
    Pong,
}

/// Character-for-character string comparison.
fn str_eq(a: &str, b: &str) -> (r: bool)
    ensures
        r == (a@ == b@),
{
    let n = a.unicode_len();
    if n != b.unicode_len() {
        return false;
    }
    let mut i: usize = 0;
    while i < n
        invariant
            i <= n,
            n == a@.len(),
            n == b@.len(),
            forall|j: int| 0 <= j < i ==> a@[j] == b@[j],
        decreases n - i,
    {
        if a.get_char(i) != b.get_char(i) {
            return false;
        }
        i = i + 1;
    }
    proof {
        assert(a@ =~= b@);
    }
    true
}

impl RedisMessage {
    /// The message's exact wire form.
    pub fn serialize(&self) -> (r: &'static str)
        ensures
            *self is Ping ==> r@ == "*1\r\n$4\r\nPING\r\n"@,
            *self is Pong ==> r@ == "+PONG\r\n"@,
    {
        match self {
            RedisMessage::Ping => "*1\r\n$4\r\nPING\r\n",
            RedisMessage::Pong => "+PONG\r\n",
        }
    }

    /// Read a message back from its wire form; any other text is
    /// refused.
    pub fn deserialize(s: &str) -> (r: Result<RedisMessage, MyError>)
        ensures
            s@ == "*1\r\n$4\r\nPING\r\n"@ ==> r == Ok::<RedisMessage, MyError>(RedisMessage::Ping),
            s@ != "*1\r\n$4\r\nPING\r\n"@ && s@ == "+PONG\r\n"@ ==> r == Ok::<
                RedisMessage,
                MyError,
            >(RedisMessage::Pong),
            s@ != "*1\r\n$4\r\nPING\r\n"@ && s@ != "+PONG\r\n"@ ==> r == Err::<
                RedisMessage,
                MyError,
            >(MyError::MalformedRecord),
    {
        if str_eq(s, "*1\r\n$4\r\nPING\r\n") {
            Ok(RedisMessage::Ping)
        } else if str_eq(s, "+PONG\r\n") {
            Ok(RedisMessage::Pong)
        } else {
            Err(MyError::MalformedRecord)
        }
    }
}

} // verus!
