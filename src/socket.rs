//! The path of the engine's listening socket.
use vstd::prelude::*;

verus! {

/// A socket, named by its path.
pub struct Socket(pub String);

impl Socket {
    pub fn new(socket: String) -> (r: Socket)
        ensures
            r.0@ == socket@,
    {
        Socket(socket)
    }

    /// A copy of the socket's path.
    pub fn value(&self) -> (r: String)
        ensures
            r@ == self.0@,
    {
        self.0.clone()
    }

    pub fn as_str(&self) -> (r: &str)
        ensures
            r@ == self.0@,
    {
        self.0.as_str()
    }
}

} // verus!
