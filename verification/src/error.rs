use vstd::prelude::*;

verus! {

/// Everything that can go wrong while loading, checking, starting or
/// stopping a managed server.
///
/// Failures of the file system and of the YAML reader happen outside the
/// library; they arrive here as the text that describes them.
#[derive(Debug)]
pub enum Error {
    /// Reading a server's file failed.
    FileError(String),
    /// A server's YAML description could not be read.
    YamlError(String),
    /// A server's description does not make sense (see `ServerConfig::verify`).
    VerificationError(&'static str),
    /// The server process could not be spawned.
    ServerSpawnError(&'static str),
    /// The server process is not in the state the request needs.
    SubprocessError(&'static str),
}

} // verus!
