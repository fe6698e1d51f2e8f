//! Per-file checksums.

use crate::error::{Error, ErrorView, answers};
use crate::format::integrity::{xxh3_64, xxh3_64_of};
use crate::format::source::ImageSource;
use crate::fs::cache::{BlockCache, within_budget};
use crate::fs::content::{FsView, agrees, lemma_file_contents, lemma_parts_of_a_read};
use crate::fs::extract::{relative, relative_path};
use crate::fs::inode::InodeKind;
use crate::fs::read::Filesystem;
use crate::text::{
    Text, hex, lemma_bytes_take_two_digits, lemma_numbers_spell_themselves, spelled,
};
use sha2::Digest;
use vstd::prelude::*;

verus! {

/// The SHA-256 digest of `bytes`.
pub uninterp spec fn sha256_of(bytes: Seq<u8>) -> Seq<u8>;

/// The SHA-512 digest of `bytes`.
pub uninterp spec fn sha512_of(bytes: Seq<u8>) -> Seq<u8>;

/// The XXH3-128 hash of `bytes` with seed zero.
pub uninterp spec fn xxh3_128_of(bytes: Seq<u8>) -> u128;

/// One more than the most bytes that are hashed with SHA-256. The hasher
/// counts the bits of its input in 64 bits.
pub const SHA256_LIMIT: u64 = 0x2000_0000_0000_0000;

/// A `sha2::Sha256` between its inputs.
#[verifier::external_body]
pub struct Sha256State {
    hasher: sha2::Sha256,
}

/// The bytes that a SHA-256 hasher has taken in.
pub uninterp spec fn sha256_input(state: Sha256State) -> Seq<u8>;

/// `sha2::Sha256::new`: a hasher that has taken nothing in.
#[verifier::external_body]
fn sha256_new() -> (r: Sha256State)
    ensures
        sha256_input(r) == Seq::<u8>::empty(),
{
    Sha256State { hasher: sha2::Sha256::new() }
}

/// `sha2::Sha256::update`: the bytes go behind those already taken in.
#[verifier::external_body]
fn sha256_update(state: &mut Sha256State, bytes: &[u8])
    requires
        sha256_input(*old(state)).len() + bytes@.len() < SHA256_LIMIT,
    ensures
        sha256_input(*final(state)) == sha256_input(*old(state)) + bytes@,
{
    state.hasher.update(bytes);
}

/// `sha2::Sha256::finalize`, named as a function of the bytes that the
/// hasher has taken in, however they were split.
#[verifier::external_body]
fn sha256_finalize(state: Sha256State) -> (r: [u8; 32])
    requires
        sha256_input(state).len() < SHA256_LIMIT,
    ensures
        r@ == sha256_of(sha256_input(state)),
{
    state.hasher.finalize().into()
}

/// A `sha2::Sha512` between its inputs.
#[verifier::external_body]
pub struct Sha512State {
    hasher: sha2::Sha512,
}

/// The bytes that a SHA-512 hasher has taken in.
pub uninterp spec fn sha512_input(state: Sha512State) -> Seq<u8>;

/// `sha2::Sha512::new`: a hasher that has taken nothing in.
#[verifier::external_body]
fn sha512_new() -> (r: Sha512State)
    ensures
        sha512_input(r) == Seq::<u8>::empty(),
{
    Sha512State { hasher: sha2::Sha512::new() }
}

/// `sha2::Sha512::update`: the bytes go behind those already taken in.
#[verifier::external_body]
fn sha512_update(state: &mut Sha512State, bytes: &[u8])
    ensures
        sha512_input(*final(state)) == sha512_input(*old(state)) + bytes@,
{
    state.hasher.update(bytes);
}

/// `sha2::Sha512::finalize`, named as a function of the bytes that the
/// hasher has taken in, however they were split.
#[verifier::external_body]
fn sha512_finalize(state: Sha512State) -> (r: [u8; 64])
    ensures
        r@ == sha512_of(sha512_input(state)),
{
    state.hasher.finalize().into()
}

/// `xxhash_rust::xxh3::xxh3_128`, named as a function of the bytes.
#[verifier::external_body]
fn xxh3_128(bytes: &[u8]) -> (r: u128)
    ensures
        r == xxh3_128_of(bytes@),
{
    xxhash_rust::xxh3::xxh3_128(bytes)
}

/// A checksum algorithm.
#[derive(Debug, Clone, Copy, PartialEq, Eq, Structural)]
pub enum Algorithm {
    /// SHA-256.
    Sha256,
    /// SHA-512.
    Sha512,
    /// XXH3 with 64 bits.
    Xxh3With64,
    /// XXH3 with 128 bits.
    Xxh3With128,
}

/// The algorithm that a name stands for.
pub open spec fn algorithm_of(name: Seq<char>) -> Option<Algorithm> {
    if name == "sha256"@ {
        Some(Algorithm::Sha256)
    } else if name == "sha512"@ {
        Some(Algorithm::Sha512)
    } else if name == "xxh3-64"@ {
        Some(Algorithm::Xxh3With64)
    } else if name == "xxh3-128"@ {
        Some(Algorithm::Xxh3With128)
    } else {
        None
    }
}

/// Look up an algorithm by name: `sha256`, `sha512`, `xxh3-64`,
/// `xxh3-128`. Anything else is a usage error.
pub fn parse_algorithm(name: &str) -> (r: Result<Algorithm, String>)
    ensures
        match algorithm_of(name@) {
            Some(a) => r == Ok::<Algorithm, String>(a),
            None => r matches Err(m) && m@ == "unknown --checksum algorithm `"@ + name@ + "`"@,
        },
{
    let given: String = name.to_owned();
    if given.eq(&"sha256".to_owned()) {
        Ok(Algorithm::Sha256)
    } else if given.eq(&"sha512".to_owned()) {
        Ok(Algorithm::Sha512)
    } else if given.eq(&"xxh3-64".to_owned()) {
        Ok(Algorithm::Xxh3With64)
    } else if given.eq(&"xxh3-128".to_owned()) {
        Ok(Algorithm::Xxh3With128)
    } else {
        Err(Text::of("unknown --checksum algorithm `").str(name).str("`").done())
    }
}

/// Bytes in hexadecimal, two digits each, from index `i` on.
pub open spec fn hex_bytes(bytes: Seq<u8>, i: nat) -> Seq<char>
    decreases bytes.len() - i,
{
    if i >= bytes.len() {
        Seq::empty()
    } else {
        hex(bytes[i as int] as nat, 2) + hex_bytes(bytes, i + 1)
    }
}

/// Bytes in hexadecimal, two digits each.
pub fn hex_encode(bytes: &[u8]) -> (r: String)
    ensures
        r@ == hex_bytes(bytes@, 0),
{
    let ghost want = hex_bytes(bytes@, 0);
    let mut t = Text::empty();
    assert(Seq::<char>::empty() + want =~= want);
    let mut i: usize = 0;
    while i < bytes.len()
        invariant
            i <= bytes@.len(),
            want == t@ + hex_bytes(bytes@, i as nat),
        decreases bytes@.len() - i,
    {
        let ghost before = t@;
        let ghost rest = hex_bytes(bytes@, (i + 1) as nat);
        t = t.hex(bytes[i] as u64, 2);
        assert(before + (hex(bytes@[i as int] as nat, 2) + rest) =~= t@ + rest);
        i = i + 1;
    }
    assert(t@ + Seq::<char>::empty() =~= t@);
    t.done()
}

/// The checksum of bytes, in hexadecimal.
pub open spec fn checksum_text(algorithm: Algorithm, bytes: Seq<u8>) -> Seq<char> {
    match algorithm {
        Algorithm::Sha256 => hex_bytes(sha256_of(bytes), 0),
        Algorithm::Sha512 => hex_bytes(sha512_of(bytes), 0),
        Algorithm::Xxh3With64 => hex(xxh3_64_of(bytes) as nat, 16),
        Algorithm::Xxh3With128 => hex(xxh3_128_of(bytes) as nat, 32),
    }
}

/// Bytes in hexadecimal take two digits each, and each pair spells its
/// byte.
pub proof fn lemma_hex_tells_the_bytes(bytes: Seq<u8>, i: nat)
    requires
        i <= bytes.len(),
    ensures
        hex_bytes(bytes, i).len() == 2 * (bytes.len() - i),
        forall|k: int|
            i <= k < bytes.len() ==> spelled(
                #[trigger] hex_bytes(bytes, i).subrange(2 * (k - i), 2 * (k - i) + 2),
                16,
            ) == bytes[k],
    decreases bytes.len() - i,
{
    let all = hex_bytes(bytes, i);
    if i < bytes.len() {
        lemma_hex_tells_the_bytes(bytes, i + 1);
        let first = hex(bytes[i as int] as nat, 2);
        let rest = hex_bytes(bytes, i + 1);
        lemma_bytes_take_two_digits(bytes[i as int]);
        assert forall|k: int| i <= k < bytes.len() implies spelled(
            #[trigger] all.subrange(2 * (k - i), 2 * (k - i) + 2),
            16,
        ) == bytes[k] by {
            let pair = all.subrange(2 * (k - i), 2 * (k - i) + 2);
            if k == i {
                assert(pair =~= first);
            } else {
                assert(pair =~= rest.subrange(2 * (k - (i + 1)), 2 * (k - (i + 1)) + 2));
            }
        }
    }
}

/// A checksum spells what its algorithm makes of the bytes: the digest byte
/// by byte, or the hash as one number of 16 or 32 digits at least.
pub proof fn lemma_checksum_spells_the_digest(bytes: Seq<u8>)
    ensures
        checksum_text(Algorithm::Sha256, bytes).len() == 2 * sha256_of(bytes).len(),
        forall|k: int|
            0 <= k < sha256_of(bytes).len() ==> spelled(
                #[trigger] checksum_text(Algorithm::Sha256, bytes).subrange(2 * k, 2 * k + 2),
                16,
            ) == sha256_of(bytes)[k],
        checksum_text(Algorithm::Sha512, bytes).len() == 2 * sha512_of(bytes).len(),
        forall|k: int|
            0 <= k < sha512_of(bytes).len() ==> spelled(
                #[trigger] checksum_text(Algorithm::Sha512, bytes).subrange(2 * k, 2 * k + 2),
                16,
            ) == sha512_of(bytes)[k],
        spelled(checksum_text(Algorithm::Xxh3With64, bytes), 16) == xxh3_64_of(bytes),
        checksum_text(Algorithm::Xxh3With64, bytes).len() >= 16,
        spelled(checksum_text(Algorithm::Xxh3With128, bytes), 16) == xxh3_128_of(bytes),
        checksum_text(Algorithm::Xxh3With128, bytes).len() >= 32,
{
    let a = sha256_of(bytes);
    let b = sha512_of(bytes);
    lemma_hex_tells_the_bytes(a, 0);
    lemma_hex_tells_the_bytes(b, 0);
    lemma_numbers_spell_themselves(xxh3_64_of(bytes) as nat, 16);
    lemma_numbers_spell_themselves(xxh3_128_of(bytes) as nat, 32);
    assert forall|k: int| 0 <= k < a.len() implies spelled(
        #[trigger] checksum_text(Algorithm::Sha256, bytes).subrange(2 * k, 2 * k + 2),
        16,
    ) == a[k] by {
        assert(hex_bytes(a, 0).subrange(2 * (k - 0nat), 2 * (k - 0nat) + 2) == hex_bytes(
            a,
            0,
        ).subrange(2 * k, 2 * k + 2));
    }
    assert forall|k: int| 0 <= k < b.len() implies spelled(
        #[trigger] checksum_text(Algorithm::Sha512, bytes).subrange(2 * k, 2 * k + 2),
        16,
    ) == b[k] by {
        assert(hex_bytes(b, 0).subrange(2 * (k - 0nat), 2 * (k - 0nat) + 2) == hex_bytes(
            b,
            0,
        ).subrange(2 * k, 2 * k + 2));
    }
}

/// The algorithms go by four names, and by no other.
pub proof fn lemma_algorithm_names(name: Seq<char>)
    ensures
        algorithm_of("sha256"@) == Some(Algorithm::Sha256),
        algorithm_of("sha512"@) == Some(Algorithm::Sha512),
        algorithm_of("xxh3-64"@) == Some(Algorithm::Xxh3With64),
        algorithm_of("xxh3-128"@) == Some(Algorithm::Xxh3With128),
        name != "sha256"@ && name != "sha512"@ && name != "xxh3-64"@ && name != "xxh3-128"@
            ==> algorithm_of(name) is None,
{
    reveal_strlit("sha256");
    reveal_strlit("sha512");
    reveal_strlit("xxh3-64");
    reveal_strlit("xxh3-128");
    assert("sha256"@.len() == 6 && "sha256"@[3] == '2');
    assert("sha512"@.len() == 6 && "sha512"@[3] == '5');
    assert("xxh3-64"@.len() == 7);
    assert("xxh3-128"@.len() == 8);
}

/// Whether so many bytes can go into a checksum.
pub open spec fn hashable(algorithm: Algorithm, len: int) -> bool {
    algorithm == Algorithm::Sha256 ==> len < SHA256_LIMIT
}

/// What a checksum in progress has taken in.
#[verifier::ext_equal]
pub struct DigesterView {
    pub algorithm: Algorithm,
    pub input: Seq<u8>,
}

/// A checksum in progress. The SHA-2 algorithms keep their state and no
/// input, so a file of any size takes little memory; the XXH3 ones hash
/// the whole input at the end.
pub enum Digester {
    /// SHA-256.
    Sha256(Sha256State),
    /// SHA-512.
    Sha512(Sha512State),
    /// XXH3 with 64 bits, over the collected input.
    Xxh3With64(Vec<u8>),
    /// XXH3 with 128 bits, over the collected input.
    Xxh3With128(Vec<u8>),
}

impl View for Digester {
    type V = DigesterView;

    open spec fn view(&self) -> DigesterView {
        match self {
            Digester::Sha256(state) => DigesterView {
                algorithm: Algorithm::Sha256,
                input: sha256_input(*state),
            },
            Digester::Sha512(state) => DigesterView {
                algorithm: Algorithm::Sha512,
                input: sha512_input(*state),
            },
            Digester::Xxh3With64(all) => DigesterView {
                algorithm: Algorithm::Xxh3With64,
                input: all@,
            },
            Digester::Xxh3With128(all) => DigesterView {
                algorithm: Algorithm::Xxh3With128,
                input: all@,
            },
        }
    }
}

impl Digester {
    /// Start a checksum.
    pub fn new(algorithm: Algorithm) -> (r: Self)
        ensures
            r@ == (DigesterView { algorithm, input: Seq::empty() }),
    {
        match algorithm {
            Algorithm::Sha256 => Digester::Sha256(sha256_new()),
            Algorithm::Sha512 => Digester::Sha512(sha512_new()),
            Algorithm::Xxh3With64 => Digester::Xxh3With64(Vec::new()),
            Algorithm::Xxh3With128 => Digester::Xxh3With128(Vec::new()),
        }
    }

    /// Take in more bytes.
    pub fn update(&mut self, bytes: &[u8])
        requires
            hashable(old(self)@.algorithm, (old(self)@.input.len() + bytes@.len()) as int),
        ensures
            final(self)@ == (DigesterView {
                algorithm: old(self)@.algorithm,
                input: old(self)@.input + bytes@,
            }),
    {
        match self {
            Digester::Sha256(state) => sha256_update(state, bytes),
            Digester::Sha512(state) => sha512_update(state, bytes),
            Digester::Xxh3With64(all) => all.extend_from_slice(bytes),
            Digester::Xxh3With128(all) => all.extend_from_slice(bytes),
        }
    }

    /// The checksum of all bytes taken in, in hexadecimal.
    pub fn finish(self) -> (r: String)
        requires
            hashable(self@.algorithm, self@.input.len() as int),
        ensures
            r@ == checksum_text(self@.algorithm, self@.input),
    {
        match self {
            Digester::Sha256(state) => {
                let digest: [u8; 32] = sha256_finalize(state);
                hex_encode(digest.as_slice())
            },
            Digester::Sha512(state) => {
                let digest: [u8; 64] = sha512_finalize(state);
                hex_encode(digest.as_slice())
            },
            Digester::Xxh3With64(all) => {
                let n: u64 = xxh3_64(all.as_slice());
                assert(Seq::<char>::empty() + hex(n as nat, 16) =~= hex(n as nat, 16));
                Text::empty().hex(n, 16).done()
            },
            Digester::Xxh3With128(all) => {
                let n: u128 = xxh3_128(all.as_slice());
                assert(Seq::<char>::empty() + hex(n as nat, 32) =~= hex(n as nat, 32));
                Text::empty().wide_hex(n, 32).done()
            },
        }
    }
}

/// Bytes read from a file in one step.
pub const STEP_BYTES: u64 = 65536;

/// What reading a file of the given size step by step from `offset` on
/// adds to `acc`.
pub open spec fn steps_from(v: FsView, inode: u32, size: u64, offset: u64, acc: Seq<u8>) -> Result<
    Seq<u8>,
    ErrorView,
>
    decreases size - offset,
{
    if offset >= size {
        Ok(acc)
    } else {
        match v.read_at(inode, offset, STEP_BYTES) {
            Err(e) => Err(e),
            Ok(bytes) => if bytes.len() == 0 || offset + bytes.len() > size {
                Ok(acc + bytes)
            } else {
                steps_from(v, inode, size, (offset + bytes.len()) as u64, acc + bytes)
            },
        }
    }
}

/// Reading a file step by step gives its contents.
pub proof fn lemma_steps_read_the_file(v: FsView, inode: u32, offset: u64)
    requires
        v.tree.consistent(),
        v.tree.kind(inode) == Ok::<InodeKind, ErrorView>(InodeKind::Regular),
        v.read_file(inode) is Ok,
        offset <= v.tree.file_size(inode)->Ok_0,
    ensures
        steps_from(
            v,
            inode,
            v.tree.file_size(inode)->Ok_0,
            offset,
            v.read_file(inode)->Ok_0.take(offset as int),
        ) == v.read_file(inode),
    decreases v.tree.file_size(inode)->Ok_0 - offset,
{
    let all = v.read_file(inode)->Ok_0;
    let size = v.tree.file_size(inode)->Ok_0;
    lemma_file_contents(v, inode, offset, 0);
    if offset < size {
        let n = FsView::available(size, offset, STEP_BYTES);
        lemma_file_contents(v, inode, offset, n as nat);
        let bytes = all.subrange(offset as int, offset + n);
        assert(all.take(offset as int) + bytes =~= all.take(offset + n));
        lemma_steps_read_the_file(v, inode, (offset + n) as u64);
    } else {
        assert(all.take(offset as int) =~= all);
    }
}

/// One step reads no more than the file has left.
proof fn lemma_step_within(v: FsView, inode: u32, offset: u64)
    requires
        v.tree.consistent(),
        v.tree.file_size(inode) is Ok,
        offset <= v.tree.file_size(inode)->Ok_0,
    ensures
        v.read_at(inode, offset, STEP_BYTES) matches Ok(bytes) ==> offset + bytes.len()
            <= v.tree.file_size(inode)->Ok_0,
{
    let n = FsView::available(v.tree.file_size(inode)->Ok_0, offset, STEP_BYTES);
    if v.read_at(inode, offset, STEP_BYTES) is Ok {
        lemma_parts_of_a_read(v, inode, offset, n as nat, offset, 0);
    }
}

/// The checksum of a file's contents. A file too large for the algorithm
/// is refused before it is read.
pub open spec fn file_checksum_text(v: FsView, inode: u32, algorithm: Algorithm) -> Result<
    Seq<char>,
    ErrorView,
> {
    match v.tree.file_size(inode) {
        Err(e) => Err(e),
        Ok(size) => if !hashable(algorithm, size as int) {
            Err(
                ErrorView::CapExceeded {
                    field: "sha256 input"@,
                    cap: (SHA256_LIMIT - 1) as u64,
                    value: size,
                },
            )
        } else {
            match steps_from(v, inode, size, 0, Seq::empty()) {
                Err(e) => Err(e),
                Ok(bytes) => Ok(checksum_text(algorithm, bytes)),
            }
        },
    }
}

/// The checksum of a file is that of the whole contents that a read of it
/// gives.
pub proof fn lemma_checksum_covers_the_file(v: FsView, inode: u32, algorithm: Algorithm)
    requires
        v.tree.consistent(),
        v.tree.kind(inode) == Ok::<InodeKind, ErrorView>(InodeKind::Regular),
        v.read_file(inode) is Ok,
        hashable(algorithm, v.tree.file_size(inode)->Ok_0 as int),
    ensures
        file_checksum_text(v, inode, algorithm) == Ok::<Seq<char>, ErrorView>(
            checksum_text(algorithm, v.read_file(inode)->Ok_0),
        ),
{
    lemma_steps_read_the_file(v, inode, 0);
    assert(v.read_file(inode)->Ok_0.take(0) =~= Seq::<u8>::empty());
}

/// Checksum of a file's contents, in hexadecimal.
pub fn file_checksum<S: ImageSource>(
    fs: &Filesystem<S>,
    inode: u32,
    algorithm: Algorithm,
    cache: &mut BlockCache,
) -> (r: Result<String, Error>)
    ensures
        agrees(old(cache)@, fs@) ==> agrees(final(cache)@, fs@) && answers(
            fs.reliable(),
            match r {
                Ok(text) => Ok::<Seq<char>, ErrorView>(text@),
                Err(e) => Err(e@),
            },
            file_checksum_text(fs@, inode, algorithm),
        ),
        final(cache)@.budget == old(cache)@.budget,
        within_budget(final(cache)@),
{
    proof {
        use_type_invariant(&*cache);
        cache.lemma_wf();
    }
    let size: u64 = fs.tree().file_size(inode)?;
    if algorithm == Algorithm::Sha256 && size >= SHA256_LIMIT {
        return Err(
            Error::CapExceeded { field: "sha256 input", cap: SHA256_LIMIT - 1, value: size },
        );
    }
    let mut digester = Digester::new(algorithm);
    let mut offset: u64 = 0;
    let ghost ok = agrees(cache@, fs@);
    let ghost want = steps_from(fs@, inode, size, 0, Seq::empty());
    let mut done: bool = size == 0;
    while !done
        invariant
            ok == agrees(old(cache)@, fs@),
            ok ==> agrees(cache@, fs@),
            cache@.budget == old(cache)@.budget,
            within_budget(cache@),
            fs@.tree.file_size(inode) == Ok::<u64, ErrorView>(size),
            fs@.tree.consistent(),
            want == steps_from(fs@, inode, size, 0, Seq::empty()),
            digester@.algorithm == algorithm,
            digester@.input.len() == offset,
            hashable(algorithm, size as int),
            offset <= size,
            !done ==> offset < size,
            ok && !done ==> want == steps_from(fs@, inode, size, offset, digester@.input),
            ok && done ==> want == Ok::<Seq<u8>, ErrorView>(digester@.input),
        decreases
                size - offset + (if done {
                    0int
                } else {
                    1int
                }),
    {
        let chunk: Vec<u8> = fs.read_at(inode, offset, STEP_BYTES, cache)?;
        let n: u64 = chunk.len() as u64;
        proof {
            if ok {
                lemma_step_within(fs@, inode, offset);
            }
        }
        if n == 0 || n > size - offset {
            assert(ok ==> digester@.input + chunk@ =~= digester@.input);
            done = true;
        } else {
            digester.update(chunk.as_slice());
            offset = offset + n;
            done = offset >= size;
        }
    }
    Ok(digester.finish())
}

/// The line of a checksum listing: the checksum, two spaces, and the
/// root-relative path.
pub open spec fn checksum_line_bytes(digest: Seq<u8>, path: Seq<u8>) -> Seq<u8> {
    (digest + seq![0x20u8, 0x20u8] + relative(path)).push(0x0a)
}

/// A line of a checksum listing: the checksum, two spaces, the path as it
/// is below the root, and the end of the line.
pub proof fn lemma_checksum_lines(digest: Seq<u8>, path: Seq<u8>)
    ensures
        checksum_line_bytes(digest, seq![0x2fu8] + path) == digest + seq![0x20u8, 0x20u8] + path
            + seq![0x0au8],
{
    assert((seq![0x2fu8] + path).skip(1) =~= path);
    assert(checksum_line_bytes(digest, seq![0x2fu8] + path) =~= digest + seq![0x20u8, 0x20u8] + path
        + seq![0x0au8]);
}

/// One line of a checksum listing.
pub fn checksum_line(digest: &[u8], path: &[u8]) -> (r: Vec<u8>)
    ensures
        r@ == checksum_line_bytes(digest@, path@),
{
    let mut out: Vec<u8> = Vec::new();
    out.extend_from_slice(digest);
    out.push(0x20);
    out.push(0x20);
    out.extend_from_slice(relative_path(path));
    out.push(0x0a);
    assert(out@ =~= checksum_line_bytes(digest@, path@));
    out
}

/// One line of a file listing: the root-relative path.
pub fn list_line(path: &[u8]) -> (r: Vec<u8>)
    ensures
        r@ == relative(path@).push(0x0a),
{
    let mut out: Vec<u8> = Vec::new();
    out.extend_from_slice(relative_path(path));
    out.push(0x0a);
    assert(out@ =~= relative(path@).push(0x0a));
    out
}

} // verus!
