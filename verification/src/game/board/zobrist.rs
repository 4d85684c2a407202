//! Zobrist hashing: a board's hash is the exclusive or of fixed pseudo-random
//! keys, one for each piece on each square and for each other feature.
use crate::game::board::Board;
use crate::game::piece::{Color, PieceType};
use rand::rngs::StdRng;
use rand::{RngCore, SeedableRng};
use vstd::prelude::*;

verus! {

#[verifier::external_type_specification]
#[verifier::external_body]
pub struct ExStdRng(StdRng);

/// The `n`-th value (counting from zero) that `RngCore::next_u64` returns
/// from a `rand::rngs::StdRng` made by `SeedableRng::seed_from_u64(seed)`.
pub uninterp spec fn std_rng_u64(seed: u64, n: nat) -> u64;

/// A seeded generator together with its seed and how many values it has given.
struct SeededRng {
    rng: StdRng,
    seed: Ghost<u64>,
    drawn: Ghost<nat>,
}

impl SeededRng {
    /// `SeedableRng::seed_from_u64` for `StdRng`.
    #[verifier::external_body]
    fn seed_from_u64(seed: u64) -> (rng: SeededRng)
        ensures
            rng.seed@ == seed,
            rng.drawn@ == 0,
    {
        SeededRng { rng: StdRng::seed_from_u64(seed), seed: Ghost(seed), drawn: Ghost(0) }
    }

    /// `RngCore::next_u64` for `StdRng`: the value is the one that comes next
    /// after the seed, a function of the seed and of how many came before it.
    #[verifier::external_body]
    fn next_u64(&mut self) -> (value: u64)
        ensures
            value == std_rng_u64(old(self).seed@, old(self).drawn@),
            final(self).seed@ == old(self).seed@,
            final(self).drawn@ == old(self).drawn@ + 1,
    {
        self.rng.next_u64()
    }
}

/// The seed of the keys; a fixed seed makes the keys the same in every run.
pub const ZOBRIST_SEED: u64 = 0xC0FFEE;

/// The keys of Zobrist hashing.
pub struct ZobristKeys {
    /// indexed by colour, kind of piece and square
    piece_square: [[[u64; 64]; 6]; 2],
    black_to_move: u64,
    /// one per right: white kingside, white queenside, black kingside, black queenside
    castle_rights: [u64; 4],
    /// one per file: only the file of the en passant target counts
    en_passant_file: [u64; 8],
}

/// The index of a colour among the keys.
pub open spec fn color_index(c: Color) -> int {
    match c {
        Color::White => 0,
        Color::Black => 1,
    }
}

/// The index of a kind of piece among the keys.
pub open spec fn kind_index(k: PieceType) -> int {
    match k {
        PieceType::Pawn => 0,
        PieceType::Knight => 1,
        PieceType::Bishop => 2,
        PieceType::Rook => 3,
        PieceType::Queen => 4,
        PieceType::King => 5,
    }
}

impl ZobristKeys {
    /// The key of a piece of colour index `c` and kind index `k` on square `sq` (rank * 8 + file).
    pub closed spec fn piece_key(self, c: int, k: int, sq: int) -> u64 {
        self.piece_square[c][k][sq]
    }

    pub closed spec fn black_key(self) -> u64 {
        self.black_to_move
    }

    pub closed spec fn castle_key(self, i: int) -> u64 {
        self.castle_rights[i]
    }

    pub closed spec fn en_passant_key(self, file: int) -> u64 {
        self.en_passant_file[file]
    }

    /// Whether these are the keys drawn from the generator seeded with
    /// [`ZOBRIST_SEED`]: first the piece keys by colour, kind and square, then
    /// the side to move, the four castling rights and the eight en passant files.
    pub open spec fn from_seed(self) -> bool {
        &&& forall|c: int, k: int, sq: int|
            0 <= c < 2 && 0 <= k < 6 && 0 <= sq < 64 ==> #[trigger] self.piece_key(c, k, sq) == std_rng_u64(
                ZOBRIST_SEED,
                (c * 384 + k * 64 + sq) as nat,
            )
        &&& self.black_key() == std_rng_u64(ZOBRIST_SEED, 768)
        &&& forall|i: int| 0 <= i < 4 ==> #[trigger] self.castle_key(i) == std_rng_u64(ZOBRIST_SEED, (769 + i) as nat)
        &&& forall|i: int| 0 <= i < 8 ==> #[trigger] self.en_passant_key(i) == std_rng_u64(ZOBRIST_SEED, (773 + i) as nat)
    }

    /// The keys drawn from the generator seeded with [`ZOBRIST_SEED`].
    pub fn new() -> (keys: ZobristKeys)
        ensures
            keys.from_seed(),
    {
        let mut rng = SeededRng::seed_from_u64(ZOBRIST_SEED);
        let mut piece_square = [[[0u64; 64]; 6]; 2];
        let mut color: usize = 0;
        while color < 2
            invariant
                0 <= color <= 2,
                rng.seed@ == ZOBRIST_SEED,
                rng.drawn@ == color * 384,
                forall|c: int, k: int, sq: int|
                    0 <= c < color && 0 <= k < 6 && 0 <= sq < 64 ==> #[trigger] piece_square[c][k][sq] == std_rng_u64(
                        ZOBRIST_SEED,
                        (c * 384 + k * 64 + sq) as nat,
                    ),
            decreases 2 - color,
        {
            let mut piece: usize = 0;
            while piece < 6
                invariant
                    0 <= color < 2,
                    0 <= piece <= 6,
                    rng.seed@ == ZOBRIST_SEED,
                    rng.drawn@ == color * 384 + piece * 64,
                    forall|c: int, k: int, sq: int|
                        0 <= c < 2 && 0 <= k < 6 && 0 <= sq < 64 && (c < color || (c == color && k < piece))
                            ==> #[trigger] piece_square[c][k][sq] == std_rng_u64(
                            ZOBRIST_SEED,
                            (c * 384 + k * 64 + sq) as nat,
                        ),
                decreases 6 - piece,
            {
                let mut sq: usize = 0;
                while sq < 64
                    invariant
                        0 <= color < 2,
                        0 <= piece < 6,
                        0 <= sq <= 64,
                        rng.seed@ == ZOBRIST_SEED,
                        rng.drawn@ == color * 384 + piece * 64 + sq,
                        forall|c: int, k: int, s: int|
                            0 <= c < 2 && 0 <= k < 6 && 0 <= s < 64 && (c < color || (c == color && k < piece) || (c
                                == color && k == piece && s < sq)) ==> #[trigger] piece_square[c][k][s]
                                == std_rng_u64(ZOBRIST_SEED, (c * 384 + k * 64 + s) as nat),
                    decreases 64 - sq,
                {
                    let ghost before = piece_square;
                    piece_square[color][piece][sq] = rng.next_u64();
                    assert forall|c: int, k: int, s: int|
                        0 <= c < 2 && 0 <= k < 6 && 0 <= s < 64 && (c < color || (c == color && k < piece) || (c
                            == color && k == piece && s < sq + 1)) implies #[trigger] piece_square[c][k][s]
                        == std_rng_u64(ZOBRIST_SEED, (c * 384 + k * 64 + s) as nat) by {
                        if !(c == color && k == piece && s == sq) {
                            if c != color {
                                assert(piece_square[c] == before[c]);
                            } else if k != piece {
                                assert(piece_square[c][k] == before[c][k]);
                            }
                        }
                    }
                    sq += 1;
                }
                piece += 1;
            }
            color += 1;
        }
        let black_to_move = rng.next_u64();
        let c0 = rng.next_u64();
        let c1 = rng.next_u64();
        let c2 = rng.next_u64();
        let c3 = rng.next_u64();
        let castle_rights = [c0, c1, c2, c3];
        let mut en_passant_file = [0u64; 8];
        let mut file: usize = 0;
        while file < 8
            invariant
                0 <= file <= 8,
                rng.seed@ == ZOBRIST_SEED,
                rng.drawn@ == 773 + file,
                forall|i: int| 0 <= i < file ==> #[trigger] en_passant_file[i] == std_rng_u64(ZOBRIST_SEED, (773 + i) as nat),
            decreases 8 - file,
        {
            en_passant_file[file] = rng.next_u64();
            file += 1;
        }
        let keys = ZobristKeys { piece_square, black_to_move, castle_rights, en_passant_file };
        assert(forall|i: int| 0 <= i < 4 ==> #[trigger] keys.castle_key(i) == castle_rights[i]);
        keys
    }
}

} // verus!

verus! {

/// The exclusive or of the keys of the pieces on the squares `0..n` (rank * 8 + file).
pub open spec fn squares_hash(b: Board, keys: ZobristKeys, n: int) -> u64
    decreases n,
{
    if n <= 0 {
        0
    } else {
        let prev = squares_hash(b, keys, n - 1);
        match b.at((n - 1) % 8, (n - 1) / 8) {
            Some(p) => prev ^ keys.piece_key(color_index(p.color), kind_index(p.kind), n - 1),
            None => prev,
        }
    }
}

/// The Zobrist hash of a board: the pieces, then the side to move when black
/// is to move, each castling right held, and the file of the en passant target.
pub open spec fn hash_of(b: Board, keys: ZobristKeys) -> u64 {
    let h0 = squares_hash(b, keys, 64);
    let h1 = if b.to_move == Color::Black {
        h0 ^ keys.black_key()
    } else {
        h0
    };
    let h2 = if b.castle_rights.0 {
        h1 ^ keys.castle_key(0)
    } else {
        h1
    };
    let h3 = if b.castle_rights.1 {
        h2 ^ keys.castle_key(1)
    } else {
        h2
    };
    let h4 = if b.castle_rights.2 {
        h3 ^ keys.castle_key(2)
    } else {
        h3
    };
    let h5 = if b.castle_rights.3 {
        h4 ^ keys.castle_key(3)
    } else {
        h4
    };
    match b.en_passant_target {
        Some(sq) => h5 ^ keys.en_passant_key(sq.0 as int),
        None => h5,
    }
}

impl Board {
    /// The Zobrist hash of the board under `keys`.
    pub fn zobrist_hash(&self, keys: &ZobristKeys) -> (hash: u64)
        requires
            self.en_passant_target matches Some(sq) ==> sq.0 < 8,
        ensures
            hash == hash_of(*self, *keys),
    {
        let mut hash: u64 = 0;
        let mut rank: usize = 0;
        while rank < 8
            invariant
                0 <= rank <= 8,
                hash == squares_hash(*self, *keys, rank * 8),
            decreases 8 - rank,
        {
            let mut file: usize = 0;
            while file < 8
                invariant
                    0 <= rank < 8,
                    0 <= file <= 8,
                    hash == squares_hash(*self, *keys, rank * 8 + file),
                decreases 8 - file,
            {
                let ghost n = rank * 8 + file;
                assert(n % 8 == file && n / 8 == rank);
                if let Some(piece) = self.squares[rank][file] {
                    let color_idx: usize = match piece.color {
                        Color::White => 0,
                        Color::Black => 1,
                    };
                    let piece_idx: usize = match piece.kind {
                        PieceType::Pawn => 0,
                        PieceType::Knight => 1,
                        PieceType::Bishop => 2,
                        PieceType::Rook => 3,
                        PieceType::Queen => 4,
                        PieceType::King => 5,
                    };
                    let sq_idx = rank * 8 + file;
                    hash ^= keys.piece_square[color_idx][piece_idx][sq_idx];
                }
                file += 1;
            }
            rank += 1;
        }
        if self.to_move == Color::Black {
            hash ^= keys.black_to_move;
        }
        if self.castle_rights.0 {
            hash ^= keys.castle_rights[0];
        }
        if self.castle_rights.1 {
            hash ^= keys.castle_rights[1];
        }
        if self.castle_rights.2 {
            hash ^= keys.castle_rights[2];
        }
        if self.castle_rights.3 {
            hash ^= keys.castle_rights[3];
        }
        if let Some((file, _rank)) = self.en_passant_target {
            hash ^= keys.en_passant_file[file];
        }
        hash
    }
}

} // verus!

verus! {

proof fn lemma_xor_swap(x: u64, y: u64, z: u64)
    ensures
        (x ^ y) ^ z == (x ^ z) ^ y,
{
    assert((x ^ y) ^ z == (x ^ z) ^ y) by (bit_vector);
}

proof fn lemma_xor_cancel(x: u64, y: u64)
    ensures
        (x ^ y) ^ y == x,
{
    assert((x ^ y) ^ y == x) by (bit_vector);
}

proof fn lemma_squares_hash_same_squares(b1: Board, b2: Board, k1: ZobristKeys, k2: ZobristKeys, n: int)
    requires
        b1.squares == b2.squares,
        n <= 64,
        forall|c: int, k: int, sq: int|
            0 <= c < 2 && 0 <= k < 6 && 0 <= sq < 64 ==> #[trigger] k1.piece_key(c, k, sq) == k2.piece_key(c, k, sq),
    ensures
        squares_hash(b1, k1, n) == squares_hash(b2, k2, n),
    decreases n,
{
    if n > 0 {
        lemma_squares_hash_same_squares(b1, b2, k1, k2, n - 1);
    }
}

/// The castling and en passant part of the hash, applied to `h`.
spec fn hash_tail(b: Board, keys: ZobristKeys, h: u64) -> u64 {
    let h2 = if b.castle_rights.0 {
        h ^ keys.castle_key(0)
    } else {
        h
    };
    let h3 = if b.castle_rights.1 {
        h2 ^ keys.castle_key(1)
    } else {
        h2
    };
    let h4 = if b.castle_rights.2 {
        h3 ^ keys.castle_key(2)
    } else {
        h3
    };
    let h5 = if b.castle_rights.3 {
        h4 ^ keys.castle_key(3)
    } else {
        h4
    };
    match b.en_passant_target {
        Some(sq) => h5 ^ keys.en_passant_key(sq.0 as int),
        None => h5,
    }
}

proof fn lemma_hash_tail_xor(b: Board, keys: ZobristKeys, h: u64, k: u64)
    ensures
        hash_tail(b, keys, h ^ k) == hash_tail(b, keys, h) ^ k,
{
    let mut x = h;
    if b.castle_rights.0 {
        lemma_xor_swap(x, k, keys.castle_key(0));
        x = x ^ keys.castle_key(0);
    }
    if b.castle_rights.1 {
        lemma_xor_swap(x, k, keys.castle_key(1));
        x = x ^ keys.castle_key(1);
    }
    if b.castle_rights.2 {
        lemma_xor_swap(x, k, keys.castle_key(2));
        x = x ^ keys.castle_key(2);
    }
    if b.castle_rights.3 {
        lemma_xor_swap(x, k, keys.castle_key(3));
        x = x ^ keys.castle_key(3);
    }
    if let Some(sq) = b.en_passant_target {
        lemma_xor_swap(x, k, keys.en_passant_key(sq.0 as int));
    }
}

/// Changing only the side to move changes the hash by exactly the key of
/// the side to move.
pub proof fn lemma_hash_side_to_move(b: Board, keys: ZobristKeys)
    ensures
        hash_of(Board { to_move: b.to_move.other(), ..b }, keys) == hash_of(b, keys) ^ keys.black_key(),
{
    let b2 = Board { to_move: b.to_move.other(), ..b };
    lemma_squares_hash_same_squares(b2, b, keys, keys, 64);
    let h0 = squares_hash(b, keys, 64);
    let k = keys.black_key();
    assert(hash_of(b, keys) == hash_tail(b, keys, if b.to_move == Color::Black { h0 ^ k } else { h0 }));
    assert(hash_of(b2, keys) == hash_tail(b, keys, if b2.to_move == Color::Black { h0 ^ k } else { h0 }));
    lemma_hash_tail_xor(b, keys, h0, k);
    if b.to_move == Color::Black {
        lemma_xor_cancel(hash_tail(b, keys, h0), k);
    }
}

/// Keys drawn from the fixed seed are the same in every run, so two sets of
/// such keys hash every board alike.
pub proof fn lemma_seeded_keys_agree(b: Board, k1: ZobristKeys, k2: ZobristKeys)
    requires
        k1.from_seed(),
        k2.from_seed(),
        b.en_passant_target matches Some(sq) ==> sq.0 < 8,
    ensures
        hash_of(b, k1) == hash_of(b, k2),
{
    assert forall|c: int, k: int, sq: int| 0 <= c < 2 && 0 <= k < 6 && 0 <= sq < 64 implies #[trigger] k1.piece_key(
        c,
        k,
        sq,
    ) == k2.piece_key(c, k, sq) by {
        assert(k1.piece_key(c, k, sq) == std_rng_u64(ZOBRIST_SEED, (c * 384 + k * 64 + sq) as nat));
        assert(k2.piece_key(c, k, sq) == std_rng_u64(ZOBRIST_SEED, (c * 384 + k * 64 + sq) as nat));
    }
    lemma_squares_hash_same_squares(b, b, k1, k2, 64);
    assert(k1.castle_key(0) == k2.castle_key(0) && k1.castle_key(1) == k2.castle_key(1));
    assert(k1.castle_key(2) == k2.castle_key(2) && k1.castle_key(3) == k2.castle_key(3));
    if let Some(sq) = b.en_passant_target {
        assert(k1.en_passant_key(sq.0 as int) == k2.en_passant_key(sq.0 as int));
    }
}

} // verus!
