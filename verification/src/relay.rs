//! What the interpreter passes on of an external command that it has run.
//!
//! The output of a command is captured whole and passed on once the command
//! has ended: only then is it known which of its two streams to pass on.

use vstd::prelude::*;
use vstd::string::StrSliceExecFns;
use vstd::utf8::encode_utf8;

verus! {

/// What became of an attempt to run an external command.
pub enum Outcome {
    /// The command ran to its end. `success` is its exit status; `stdout`
    /// and `stderr` are what it wrote.
    Exited { success: bool, stdout: Vec<u8>, stderr: Vec<u8> },
    /// The command could not be started. `error` says why.
    Failed { error: String },
}

/// One of the interpreter's two output streams.
#[derive(Debug, Clone, Copy, PartialEq, Eq, Structural)]
pub enum Stream {
    Stdout,
    Stderr,
}

/// What to pass on of a command, and what the command counts as.
pub struct Relay {
    /// The stream to write to.
    pub stream: Stream,
    /// The bytes to write.
    pub bytes: Vec<u8>,
    /// Whether the command counts as succeeded.
    pub success: bool,
}

/// The byte that ends a line.
pub const NEWLINE: u8 = 10;

impl Outcome {
    /// Whether the command counts as succeeded: it ran, and exited with
    /// success.
    pub open spec fn succeeded(self) -> bool {
        self matches Outcome::Exited { success, .. } && success
    }

    /// The bytes to pass on: the standard output of a command that
    /// succeeded, the standard error of one that failed, and for one that
    /// could not be started the reason, as one line.
    pub open spec fn passed_on(self) -> Seq<u8> {
        match self {
            Outcome::Exited { success, stdout, stderr } => if success {
                stdout@
            } else {
                stderr@
            },
            Outcome::Failed { error } => encode_utf8(error@).push(NEWLINE),
        }
    }

    /// Decides what to pass on of the command and whether it succeeded.
    /// Success goes to the standard output, everything else to the standard
    /// error.
    pub fn relay(self) -> (relay: Relay)
        ensures
            relay.success == self.succeeded(),
            relay.stream == if self.succeeded() {
                Stream::Stdout
            } else {
                Stream::Stderr
            },
            relay.bytes@ == self.passed_on(),
    {
        match self {
            Outcome::Exited { success, stdout, stderr } => {
                if success {
                    Relay { stream: Stream::Stdout, bytes: stdout, success: true }
                } else {
                    Relay { stream: Stream::Stderr, bytes: stderr, success: false }
                }
            },
            Outcome::Failed { error } => {
                let mut bytes = error.as_str().as_bytes_vec();
                bytes.push(NEWLINE);
                Relay { stream: Stream::Stderr, bytes, success: false }
            },
        }
    }
}

} // verus!
