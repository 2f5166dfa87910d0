use vstd::prelude::*;

verus! {

/// The parsed command line.
pub struct Args {
    pub cmd: Commands,
}

/// The subcommands the client offers.
#[derive(Debug, Clone)]
pub enum Commands {
    Decode { value: String },
    Info { torrent_file: String },
    Peers { torrent_file: String },
    Handshake { torrent_file: String, ip: Option<String> },
    DownloadPiece { output_file: String, torrent_file: String, piece_index: u32 },
    Download { output_file: String, torrent_file: String },
}

} // verus!
