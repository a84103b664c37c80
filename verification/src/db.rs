//! The payload under which a game is stored, and the game read back from it.

use crate::game::Board;
use crate::game::BoardError;
use crate::game::Game;
use crate::seed::decode;
use crate::seed::encode;
use crate::text::begins_with;
use crate::text::labelled;
use crate::text::string_from_utf8;
use vstd::prelude::*;
use vstd::utf8::decode_utf8;
use vstd::utf8::encode_utf8;
use vstd::utf8::valid_utf8;

verus! {

/// Why a stored game could not be written or read back.
#[derive(Debug)]
pub enum StoreError {
    /// The payload could not be compressed or decompressed, or what came
    /// out of it is not text. The field says which, and why.
    ZSTDError(String),
    /// The payload is not the seed of a board.
    BoardError(BoardError),
}

impl StoreError {
    /// What `message` returns.
    pub open spec fn message_text(&self) -> Seq<char> {
        match self {
            StoreError::ZSTDError(m) => "zstd: "@ + m@,
            StoreError::BoardError(e) => "board: "@ + e.message_text(),
        }
    }

    /// The error in words.
    pub fn message(&self) -> (s: String)
        ensures
            s@ == self.message_text(),
    {
        match self {
            StoreError::ZSTDError(m) => labelled("zstd: ", m.as_str()),
            StoreError::BoardError(e) => labelled("board: ", e.message().as_str()),
        }
    }

    /// Whether this is a `ZSTDError` whose text begins with `label`.
    pub open spec fn zstd_failure(&self, label: Seq<char>) -> bool {
        self matches StoreError::ZSTDError(m) && begins_with(m@, label)
    }
}

/// The level at which boards are compressed.
pub const LEVEL: i32 = 3;

/// `std::io::Error`, carried as it comes.
#[verifier::external_type_specification]
#[verifier::external_body]
pub struct ExIoError(std::io::Error);

/// The zstd frame that `zstd::encode_all` makes of `data` at `level`;
/// nothing where it fails.
pub uninterp spec fn zstd_frame(data: Seq<u8>, level: i32) -> Option<Seq<u8>>;

/// The data that `zstd::decode_all` reads out of `frame`; nothing where it
/// fails, as it does on bytes that are no frame.
pub uninterp spec fn zstd_content(frame: Seq<u8>) -> Option<Seq<u8>>;

/// `zstd::encode_all` on a byte slice. Whether it succeeds, and with which
/// frame, depends on `data` and `level` alone.
#[verifier::external_body]
pub(crate) fn encode_all(data: &[u8], level: i32) -> (r: Result<Vec<u8>, std::io::Error>)
    ensures
        match r {
            Ok(frame) => zstd_frame(data@, level) == Some(frame@),
            Err(_) => zstd_frame(data@, level) is None,
        },
{
    zstd::encode_all(data, level)
}

/// `zstd::decode_all` on a byte slice. Whether it succeeds, and with which
/// content, depends on `frame` alone.
#[verifier::external_body]
pub(crate) fn decode_all(frame: &[u8]) -> (r: Result<Vec<u8>, std::io::Error>)
    ensures
        match r {
            Ok(content) => zstd_content(frame@) == Some(content@),
            Err(_) => zstd_content(frame@) is None,
        },
{
    zstd::decode_all(frame)
}

/// What `compress` and `payload` give for a text: its frame, or the failure
/// to compress.
pub open spec fn compressed(text: Seq<char>, r: Result<Vec<u8>, StoreError>) -> bool {
    match zstd_frame(encode_utf8(text), LEVEL) {
        Some(frame) => r matches Ok(found) && found@ == frame,
        None => r matches Err(e) && e.zstd_failure("unable to compress: "@),
    }
}

/// Compresses the text of a board.
pub fn compress(input: String) -> (r: Result<Vec<u8>, StoreError>)
    ensures
        compressed(input@, r),
{
    match encode_all(input.as_str().as_bytes(), LEVEL) {
        Ok(frame) => Ok(frame),
        Err(e) => Err(
            StoreError::ZSTDError(labelled("unable to compress: ", e.to_string().as_str())),
        ),
    }
}

/// Reads what came out of a frame as text.
pub fn read_text(content: Vec<u8>) -> (r: Result<String, StoreError>)
    ensures
        match r {
            Ok(s) => valid_utf8(content@) && s@ == decode_utf8(content@),
            Err(e) => !valid_utf8(content@) && e.zstd_failure("invalid utf8: "@),
        },
{
    match string_from_utf8(content) {
        Ok(s) => Ok(s),
        Err(e) => Err(
            StoreError::ZSTDError(labelled("invalid utf8: ", e.to_string().as_str())),
        ),
    }
}

/// Decompresses the text of a board: the text that the content of the frame
/// encodes. Bytes that are no frame fail as "unable to decompress", content
/// that is not UTF-8 as "invalid utf8".
pub fn decompress(data: &[u8]) -> (r: Result<String, StoreError>)
    ensures
        match zstd_content(data@) {
            None => r matches Err(e) && e.zstd_failure("unable to decompress: "@),
            Some(content) => if valid_utf8(content) {
                r matches Ok(s) && s@ == decode_utf8(content)
            } else {
                r matches Err(e) && e.zstd_failure("invalid utf8: "@)
            },
        },
{
    match decode_all(data) {
        Ok(content) => read_text(content),
        Err(e) => Err(
            StoreError::ZSTDError(labelled("unable to decompress: ", e.to_string().as_str())),
        ),
    }
}

/// The payload under which the board of `game` is stored: its text in the
/// usual symbols, compressed.
pub fn payload(game: &Game) -> (r: Result<Vec<u8>, StoreError>)
    ensures
        compressed(encode(game.board@, '#', '.', '\n'), r),
{
    compress(game.board.to_text())
}

/// What `revive` gives for a seed and counters: the board that the seed
/// reads as in the usual symbols, with the counters as they are, or the
/// reason why the seed is none.
pub open spec fn revived(
    seed: Seq<char>,
    generation: usize,
    delta: usize,
    r: Result<Game, StoreError>,
) -> bool {
    match decode(seed, '#', '.', '\n') {
        Ok(grid) => r matches Ok(game) && game.board@ == grid && game.generation == generation
            && game.delta == delta,
        Err(e) => r matches Err(StoreError::BoardError(found)) && found == e,
    }
}

/// The game that a stored seed and stored counters stand for.
pub fn revive(seed: String, generation: usize, delta: usize) -> (r: Result<Game, StoreError>)
    ensures
        revived(seed@, generation, delta, r),
{
    match Board::try_from(seed) {
        Ok(board) => Ok(Game { board, generation, delta }),
        Err(e) => Err(StoreError::BoardError(e)),
    }
}

/// The game that a stored payload and stored counters stand for. Bytes that
/// are no frame fail as "unable to decompress", content that is not UTF-8
/// as "invalid utf8"; text is read as `revive` reads it.
pub fn restore(data: &[u8], generation: usize, delta: usize) -> (r: Result<Game, StoreError>)
    ensures
        match zstd_content(data@) {
            None => r matches Err(e) && e.zstd_failure("unable to decompress: "@),
            Some(content) => if valid_utf8(content) {
                revived(decode_utf8(content), generation, delta, r)
            } else {
                r matches Err(e) && e.zstd_failure("invalid utf8: "@)
            },
        },
{
    match decompress(data) {
        Ok(seed) => revive(seed, generation, delta),
        Err(e) => Err(e),
    }
}

} // verus!
