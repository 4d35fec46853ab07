//! The durable scratch store: where a node's notes to its own later attempts live, and
//! what the replies of the storage below mean.
//!
//! A store addresses one node of one run. Names are made of identities and keys so that
//! none can lead out of the node's own directory, whatever the identities and keys hold.

pub mod durable;

pub use self::durable::{WriteAction, WritePlan};

use self::durable::PlanView;
use crate::context::{PipelineId, RunId};
use crate::error::{TaskError, TaskErrorClass, TaskErrorView};
use crate::handle::NodeId;
use crate::text;
use vstd::prelude::*;

verus! {

/// The directory below a run's directory that holds the scratch of its nodes.
pub const SCRATCH_DIR_NAME: &'static str = "scratch";

/// A scratch operation.
#[derive(Debug, Clone, Copy, PartialEq, Eq, Structural)]
#[non_exhaustive]
pub enum ScratchOp {
    /// Reading a value.
    Read,
    /// Writing or removing a value.
    Write,
}

impl ScratchOp {
    /// The operation's name.
    pub open spec fn label_spec(self) -> Seq<char> {
        match self {
            ScratchOp::Read => "read"@,
            ScratchOp::Write => "write"@,
        }
    }

    /// The operation's name.
    #[must_use]
    pub fn label(self) -> (r: &'static str)
        ensures
            r@ == self.label_spec(),
    {
        match self {
            ScratchOp::Read => "read",
            ScratchOp::Write => "write",
        }
    }
}

/// A failure of the storage below. A key that was never written is no failure.
#[derive(Debug)]
#[non_exhaustive]
pub enum ScratchError {
    /// The storage failed.
    Io {
        /// What was tried.
        op: ScratchOp,
        /// What the storage says, in words.
        source: String,
    },
}

/// The contents of a [`ScratchError`].
#[verifier::ext_equal]
pub struct ScratchErrorView {
    pub op: ScratchOp,
    pub source: Seq<char>,
}

impl View for ScratchError {
    type V = ScratchErrorView;

    open spec fn view(&self) -> ScratchErrorView {
        match self {
            ScratchError::Io { op, source } => ScratchErrorView { op: *op, source: source@ },
        }
    }
}

impl ScratchError {
    /// The failure in words.
    #[must_use]
    pub fn render(&self) -> (r: String)
        ensures
            r@ == "scratch "@ + self@.op.label_spec() + " failed: "@ + self@.source,
    {
        match self {
            ScratchError::Io { op, source } => {
                let mut s = String::from_str("scratch ");
                s.append(op.label());
                s.append(" failed: ");
                s.append(source.as_str());
                s
            },
        }
    }

    /// The retry-eligible failure that the task sees.
    #[must_use]
    pub fn into_task_error(self) -> (r: TaskError)
        ensures
            r@ == (TaskErrorView {
                class: TaskErrorClass::Retryable,
                message: "durable scratch "@ + self@.op.label_spec() + " failed"@,
                source: Some(self@.source),
            }),
    {
        match self {
            ScratchError::Io { op, source } => {
                let mut message = String::from_str("durable scratch ");
                message.append(op.label());
                message.append(" failed");
                TaskError::retryable_from(message.as_str(), source.as_str())
            },
        }
    }
}

/// What the storage below replies.
#[derive(Debug)]
pub enum StoreReply<T> {
    /// It was done.
    Done(T),
    /// There is nothing of the name.
    NotFound,
    /// It failed, with what the storage says.
    Failed(String),
}

/// What is said where there is no store.
pub open spec fn unwired_text() -> Seq<char> {
    "scratch store has no run-store base (context built with no run store)"@
}

fn unwired_error(op: ScratchOp) -> (r: ScratchError)
    ensures
        r@ == (ScratchErrorView { op, source: unwired_text() }),
{
    ScratchError::Io {
        op,
        source: String::from_str("scratch store has no run-store base (context built with no run store)"),
    }
}

/// A place in the run store: the base, and the names below it.
#[verifier::ext_equal]
pub struct PlaceView {
    pub base: Seq<char>,
    pub names: Seq<Seq<char>>,
}

/// A place in the run store: the base, and the names below it.
#[derive(Debug, Clone, PartialEq, Eq)]
pub struct ScratchPath {
    pub base: String,
    pub names: Vec<String>,
}

/// The contents of texts.
pub open spec fn text_views(texts: Seq<String>) -> Seq<Seq<char>> {
    texts.map_values(|s: String| s@)
}

impl View for ScratchPath {
    type V = PlaceView;

    open spec fn view(&self) -> PlaceView {
        PlaceView { base: self.base@, names: text_views(self.names@) }
    }
}

/// A copy of texts.
fn copy_texts(texts: &Vec<String>) -> (r: Vec<String>)
    ensures
        text_views(r@) == text_views(texts@),
{
    let mut out: Vec<String> = Vec::new();
    let mut i: usize = 0;
    while i < texts.len()
        invariant
            i <= texts.len(),
            out.len() == i,
            forall|k: int| 0 <= k < i ==> (#[trigger] out@[k])@ == texts@[k]@,
        decreases texts.len() - i,
    {
        out.push(String::from_str(texts[i].as_str()));
        i = i + 1;
    }
    assert(text_views(out@) =~= text_views(texts@));
    out
}

impl ScratchPath {
    /// A copy of the place.
    fn copy(&self) -> (r: Self)
        ensures
            r@ == self@,
    {
        ScratchPath { base: String::from_str(self.base.as_str()), names: copy_texts(&self.names) }
    }
}

/// The scratch store of one node of one run, or no store.
#[derive(Debug, Clone)]
pub struct ScratchStore {
    dir: Option<ScratchPath>,
}

impl View for ScratchStore {
    type V = Option<PlaceView>;

    closed spec fn view(&self) -> Option<PlaceView> {
        match self.dir {
            Some(dir) => Some(dir@),
            None => None,
        }
    }
}

/// The directory of a node: below the base the pipeline, the run, the scratch directory
/// and the node.
pub open spec fn node_place(base: Seq<char>, pipeline: Seq<char>, run: Seq<char>, node: NodeId) -> PlaceView {
    PlaceView {
        base,
        names: seq![segment(pipeline), segment(run), SCRATCH_DIR_NAME@, text::hex(node@ as nat, 16)],
    }
}

impl ScratchStore {
    /// The store of a node below the base of the run store. Nothing is touched.
    #[must_use]
    pub fn for_node(base: &str, pipeline: &PipelineId, run: &RunId, node: NodeId) -> (r: Self)
        ensures
            r@ == Some(node_place(base@, pipeline@, run@, node)),
    {
        let names: Vec<String> = vec![
            path_segment(pipeline.as_str()),
            path_segment(run.as_str()),
            String::from_str(SCRATCH_DIR_NAME),
            node_segment(node),
        ];
        let dir = ScratchPath { base: String::from_str(base), names };
        assert(dir@ =~= node_place(base@, pipeline@, run@, node));
        ScratchStore { dir: Some(dir) }
    }

    /// No store. It never pretends to keep anything.
    #[must_use]
    pub fn unwired() -> (r: Self)
        ensures
            r@ is None,
    {
        ScratchStore { dir: None }
    }

    /// The node's own directory, where there is a store.
    #[must_use]
    pub fn namespace_dir(&self) -> (r: Option<&ScratchPath>)
        ensures
            match r {
                Some(dir) => self@ == Some(dir@),
                None => self@ is None,
            },
    {
        match &self.dir {
            Some(dir) => Some(dir),
            None => None,
        }
    }

    /// Where the value of a key is kept below a directory.
    fn key_path(dir: &ScratchPath, key: &[u8]) -> (r: ScratchPath)
        ensures
            r@ == key_place(dir@, key@),
    {
        let mut names = copy_texts(&dir.names);
        let ghost before = text_views(names@);
        names.push(encode_key(key));
        assert(text_views(names@) =~= before.push(key_name(key@)));
        ScratchPath { base: String::from_str(dir.base.as_str()), names }
    }

    /// Reads the value of a key, byte for byte as it was written. A key that was never
    /// written is absent, not a failure, and so is every key where there is no store.
    /// `read` reads a file.
    ///
    /// # Errors
    ///
    /// A failure of the storage.
    pub fn get<F>(&self, key: &[u8], read: F) -> (r: Result<Option<Vec<u8>>, ScratchError>) where
        F: FnOnce(&ScratchPath) -> StoreReply<Vec<u8>>,

        requires
            forall|path: &ScratchPath| #[trigger] call_requires(read, (path,)),
        ensures
            match self@ {
                None => r matches Ok(found) && found is None,
                Some(dir) => exists|path: ScratchPath, reply: StoreReply<Vec<u8>>|
                    {
                        &&& path@ == key_place(dir, key@)
                        &&& #[trigger] call_ensures(read, (&path,), reply)
                        &&& read_comes_to(reply, r)
                    },
            },
    {
        match &self.dir {
            Some(dir) => {
                let path = ScratchStore::key_path(dir, key);
                let reply = read(&path);
                let ghost answer = reply;
                assert(call_ensures(read, (&path,), answer));
                read_outcome(reply)
            },
            None => Ok(None),
        }
    }

    /// Writes the value of a key, in place of any that it had, whole or not at all.
    /// `perform` performs a step; `process` and `number` make the temporary name one that
    /// no other write uses.
    ///
    /// # Errors
    ///
    /// A failure of the storage, or that there is no store.
    pub fn put<F>(&self, key: &[u8], value: &[u8], process: u32, number: u64, perform: F) -> (r: Result<
        (),
        ScratchError,
    >) where F: Fn(WriteAction, &WritePlan, &[u8]) -> Result<(), String>
        requires
            forall|action: WriteAction, plan: &WritePlan| #[trigger] call_requires(perform, (action, plan, value)),
        ensures
            match self@ {
                None => r matches Err(e) && e@ == (ScratchErrorView { op: ScratchOp::Write, source: unwired_text() }),
                Some(dir) => exists|plan: WritePlan, steps: Seq<durable::Tried>|
                    {
                        &&& plan@ == write_plan(dir, key@, process, number)
                        &&& durable::finished(steps)
                        &&& #[trigger] durable::performed(perform, plan, value, steps)
                        &&& match r {
                            Ok(_) => durable::succeeded(steps),
                            Err(e) => !durable::succeeded(steps) && e@ == (ScratchErrorView {
                                op: ScratchOp::Write,
                                source: durable::fault(steps),
                            }),
                        }
                    },
            },
    {
        match &self.dir {
            Some(dir) => {
                let target = encode_key(key);
                let temporary = temporary_name(target.as_str(), process, number);
                let plan = WritePlan { dir: dir.copy(), temporary, target };
                assert(plan@ =~= write_plan(dir@, key@, process, number));
                let reply = durable::write_through(&plan, value, perform);
                write_outcome(reply)
            },
            None => Err(unwired_error(ScratchOp::Write)),
        }
    }

    /// Removes the value of a key. One that is not there is removed already, and where
    /// there is no store there is nothing to remove. `unlink` removes a file.
    ///
    /// # Errors
    ///
    /// A failure of the storage.
    pub fn remove<F>(&self, key: &[u8], unlink: F) -> (r: Result<(), ScratchError>) where
        F: FnOnce(&ScratchPath) -> StoreReply<()>,

        requires
            forall|path: &ScratchPath| #[trigger] call_requires(unlink, (path,)),
        ensures
            match self@ {
                None => r is Ok,
                Some(dir) => exists|path: ScratchPath, reply: StoreReply<()>|
                    {
                        &&& path@ == key_place(dir, key@)
                        &&& #[trigger] call_ensures(unlink, (&path,), reply)
                        &&& removal_comes_to(reply, r)
                    },
            },
    {
        match &self.dir {
            Some(dir) => {
                let path = ScratchStore::key_path(dir, key);
                let reply = unlink(&path);
                let ghost answer = reply;
                assert(call_ensures(unlink, (&path,), answer));
                remove_outcome(reply)
            },
            None => Ok(()),
        }
    }

    /// Removes the node's whole directory, which is done when the node has succeeded and
    /// only then. One that is not there is removed already. `remove_tree` removes a
    /// directory and what is in it.
    ///
    /// # Errors
    ///
    /// A failure of the storage.
    pub fn remove_on_success<F>(&self, remove_tree: F) -> (r: Result<(), ScratchError>) where
        F: FnOnce(&ScratchPath) -> StoreReply<()>,

        requires
            forall|path: &ScratchPath| #[trigger] call_requires(remove_tree, (path,)),
        ensures
            match self@ {
                None => r is Ok,
                Some(dir) => exists|path: ScratchPath, reply: StoreReply<()>|
                    {
                        &&& path@ == dir
                        &&& #[trigger] call_ensures(remove_tree, (&path,), reply)
                        &&& removal_comes_to(reply, r)
                    },
            },
    {
        match &self.dir {
            Some(dir) => {
                let reply = remove_tree(dir);
                let ghost answer = reply;
                assert(call_ensures(remove_tree, (dir,), answer));
                remove_outcome(reply)
            },
            None => Ok(()),
        }
    }
}

/// Where the value of a key is kept.
pub open spec fn key_place(dir: PlaceView, key: Seq<u8>) -> PlaceView {
    PlaceView { names: dir.names.push(key_name(key)), ..dir }
}

/// Where a value is written to before it has its name, and then.
pub open spec fn write_plan(dir: PlaceView, key: Seq<u8>, process: u32, number: u64) -> PlanView {
    PlanView { dir, temporary: temporary_of(key_name(key), process, number), target: key_name(key) }
}

/// What a reply to a read comes to: what is not there is absent, not a failure.
pub open spec fn read_comes_to(reply: StoreReply<Vec<u8>>, r: Result<Option<Vec<u8>>, ScratchError>) -> bool {
    match reply {
        StoreReply::Done(bytes) => r == Ok::<Option<Vec<u8>>, ScratchError>(Some(bytes)),
        StoreReply::NotFound => r == Ok::<Option<Vec<u8>>, ScratchError>(None),
        StoreReply::Failed(text) => r matches Err(e) && e@ == (ScratchErrorView {
            op: ScratchOp::Read,
            source: text@,
        }),
    }
}

/// What a reply to a removal comes to: what is not there is removed already.
pub open spec fn removal_comes_to(reply: StoreReply<()>, r: Result<(), ScratchError>) -> bool {
    match reply {
        StoreReply::Failed(text) => r matches Err(e) && e@ == (ScratchErrorView {
            op: ScratchOp::Write,
            source: text@,
        }),
        _ => r is Ok,
    }
}

/// What reading a value comes to: a value that is not there is absent, not a failure.
///
/// # Errors
///
/// The storage's failure.
pub fn read_outcome(reply: StoreReply<Vec<u8>>) -> (r: Result<Option<Vec<u8>>, ScratchError>)
    ensures
        read_comes_to(reply, r),
{
    match reply {
        StoreReply::Done(bytes) => Ok(Some(bytes)),
        StoreReply::NotFound => Ok(None),
        StoreReply::Failed(text) => Err(ScratchError::Io { op: ScratchOp::Read, source: text }),
    }
}

/// What writing a value comes to.
///
/// # Errors
///
/// The storage's failure.
pub fn write_outcome(reply: Result<(), String>) -> (r: Result<(), ScratchError>)
    ensures
        match reply {
            Ok(_) => r is Ok,
            Err(text) => r matches Err(e) && e@ == (ScratchErrorView { op: ScratchOp::Write, source: text@ }),
        },
{
    match reply {
        Ok(_) => Ok(()),
        Err(text) => Err(ScratchError::Io { op: ScratchOp::Write, source: text }),
    }
}

/// What removing a value, or a node's whole directory, comes to: what is not there is
/// removed already.
///
/// # Errors
///
/// The storage's failure.
pub fn remove_outcome(reply: StoreReply<()>) -> (r: Result<(), ScratchError>)
    ensures
        removal_comes_to(reply, r),
{
    match reply {
        StoreReply::Done(_) => Ok(()),
        StoreReply::NotFound => Ok(()),
        StoreReply::Failed(text) => Err(ScratchError::Io { op: ScratchOp::Write, source: text }),
    }
}

/// The name of a node's directory: its identity in sixteen hexadecimal digits.
#[must_use]
pub fn node_segment(node: NodeId) -> (r: String)
    ensures
        r@ == text::hex(node@ as nat, 16),
{
    text::hex_text(node.sort_key(), 16)
}

/// Whether a character of an identity stands as it is in a name: letters, digits, `-`
/// and `_`, and a dot that is not the first character.
pub open spec fn plain(c: char, i: int) -> bool {
    ||| 'a' <= c <= 'z'
    ||| 'A' <= c <= 'Z'
    ||| '0' <= c <= '9'
    ||| c == '-'
    ||| c == '_'
    ||| (c == '.' && i != 0)
}

/// The name that an identity makes: every other character is replaced, and the empty
/// identity has a name too.
pub open spec fn segment(id: Seq<char>) -> Seq<char> {
    if id.len() == 0 {
        seq!['_']
    } else {
        Seq::new(
            id.len(),
            |i: int|
                if plain(id[i], i) {
                    id[i]
                } else {
                    '_'
                },
        )
    }
}

/// The name that an identity makes.
#[must_use]
pub fn path_segment(id: &str) -> (r: String)
    ensures
        r@ == segment(id@),
{
    proof {
        reveal_strlit("_");
    }
    let chars = text::chars_of(id);
    if chars.len() == 0 {
        let r = String::from_str("_");
        assert(r@ =~= segment(id@));
        return r;
    }
    let mut out = String::new();
    let mut i: usize = 0;
    while i < chars.len()
        invariant
            chars@ == id@,
            id@.len() > 0,
            i <= chars.len(),
            out@ == segment(id@).take(i as int),
            "_"@ == seq!['_'],
        decreases chars.len() - i,
    {
        let c: char = chars[i];
        let keep = ('a' <= c && c <= 'z') || ('A' <= c && c <= 'Z') || ('0' <= c && c <= '9') || c == '-' || c == '_' || (
        c == '.' && i != 0);
        let ghost before = out@;
        if keep {
            out.append(id.substring_char(i, i + 1));
            assert(id@.subrange(i as int, i + 1) =~= seq![c]);
        } else {
            out.append("_");
        }
        assert(out@ =~= segment(id@).take(i + 1));
        i = i + 1;
    }
    assert(segment(id@).take(i as int) =~= segment(id@));
    out
}

/// Two hexadecimal digits for each byte.
pub open spec fn hex_bytes(key: Seq<u8>) -> Seq<char>
    decreases key.len(),
{
    if key.len() == 0 {
        Seq::empty()
    } else {
        hex_bytes(key.drop_last()) + text::hex(key.last() as nat, 2)
    }
}

/// The name under which the value of a key is kept: two digits for each byte. The empty
/// key has the name that the key of one zero byte would have, which has a single digit.
pub open spec fn key_name(key: Seq<u8>) -> Seq<char> {
    if key.len() == 0 {
        "00"@
    } else if key.len() == 1 && key[0] == 0 {
        "0"@
    } else {
        hex_bytes(key)
    }
}

/// The name under which the value of a key is kept.
#[must_use]
pub fn encode_key(key: &[u8]) -> (r: String)
    ensures
        r@ == key_name(key@),
{
    if key.len() == 0 {
        return String::from_str("00");
    }
    if key.len() == 1 && key[0] == 0 {
        return String::from_str("0");
    }
    let mut out = String::new();
    let mut i: usize = 0;
    assert(key@.take(0) =~= Seq::<u8>::empty());
    while i < key.len()
        invariant
            i <= key.len(),
            out@ == hex_bytes(key@.take(i as int)),
        decreases key.len() - i,
    {
        out.append(text::hex_text(key[i] as u64, 2).as_str());
        proof {
            let next = key@.take(i + 1);
            assert(next.drop_last() =~= key@.take(i as int));
            assert(next.last() == key@[i as int]);
        }
        i = i + 1;
    }
    assert(key@.take(i as int) =~= key@);
    out
}

/// The name of the file that a value is written to before it takes the place of the old
/// one.
pub open spec fn temporary_of(file: Seq<char>, process: u32, number: u64) -> Seq<char> {
    "."@ + file + ".tmp."@ + text::decimal(process as nat) + "."@ + text::decimal(number as nat)
}

/// The name of the file that a value is written to before it takes the place of the old
/// one: the final name, the process, and a number that no two writes of a process share.
#[must_use]
pub fn temporary_name(file: &str, process: u32, number: u64) -> (r: String)
    ensures
        r@ == temporary_of(file@, process, number),
{
    let mut s = String::from_str(".");
    s.append(file);
    s.append(".tmp.");
    s.append(text::decimal_text(process as u128).as_str());
    s.append(".");
    s.append(text::decimal_text(number as u128).as_str());
    s
}

/// A name made of an identity cannot lead anywhere: it is not empty, it does not start
/// with a dot, and it holds no separator and no other character than the plain ones.
pub proof fn law_segment_is_safe(id: Seq<char>)
    ensures
        segment(id).len() > 0,
        segment(id)[0] != '.',
        forall|i: int| 0 <= i < segment(id).len() ==> plain(#[trigger] segment(id)[i], i),
        forall|i: int| 0 <= i < segment(id).len() ==> #[trigger] segment(id)[i] != '/' && segment(id)[i] != '\\'
            && segment(id)[i] != '\0',
{
}

/// An identity of plain characters makes its own name, and a name makes itself.
pub proof fn law_plain_identity_is_kept(id: Seq<char>)
    ensures
        id.len() > 0 && (forall|i: int| 0 <= i < id.len() ==> plain(#[trigger] id[i], i)) ==> segment(id) == id,
        segment(segment(id)) == segment(id),
{
    if id.len() > 0 && (forall|i: int| 0 <= i < id.len() ==> plain(#[trigger] id[i], i)) {
        assert(segment(id) =~= id);
    }
    let s = segment(id);
    law_segment_is_safe(id);
    assert(segment(s) =~= s);
}

proof fn lemma_hex_bytes_len(key: Seq<u8>)
    ensures
        hex_bytes(key).len() == 2 * key.len(),
    decreases key.len(),
{
    if key.len() > 0 {
        lemma_hex_bytes_len(key.drop_last());
        text::lemma_hex_len(key.last() as nat, 2);
    }
}

/// Whether a character is a lower-case hexadecimal digit.
pub open spec fn is_hex(c: char) -> bool {
    ('0' <= c <= '9') || ('a' <= c <= 'f')
}

proof fn lemma_hex_chars(n: nat, width: nat)
    ensures
        forall|i: int| 0 <= i < text::hex(n, width).len() ==> is_hex(#[trigger] text::hex(n, width)[i]),
    decreases width,
{
    if width > 0 {
        lemma_hex_chars(n / 16, (width - 1) as nat);
        let front = text::hex(n / 16, (width - 1) as nat);
        let digits = text::hex(n, width);
        let d = (n % 16) as int;
        assert forall|i: int| 0 <= i < digits.len() implies is_hex(#[trigger] digits[i]) by {
            if i < front.len() {
                assert(digits[i] == front[i]);
            } else {
                assert(0 <= d < 16);
                assert(digits[i] == text::hex_digit(d));
            }
        }
    }
}

proof fn lemma_hex_bytes_chars(key: Seq<u8>)
    ensures
        forall|i: int| 0 <= i < hex_bytes(key).len() ==> is_hex(#[trigger] hex_bytes(key)[i]),
    decreases key.len(),
{
    if key.len() > 0 {
        lemma_hex_bytes_chars(key.drop_last());
        lemma_hex_chars(key.last() as nat, 2);
        let front = hex_bytes(key.drop_last());
        let back = text::hex(key.last() as nat, 2);
        assert forall|i: int| 0 <= i < hex_bytes(key).len() implies is_hex(#[trigger] hex_bytes(key)[i]) by {
            if i < front.len() {
                assert(hex_bytes(key)[i] == front[i]);
            } else {
                assert(hex_bytes(key)[i] == back[i - front.len()]);
            }
        }
    }
}

/// The name of a key holds hexadecimal digits only, and at least one.
pub proof fn law_key_name_is_safe(key: Seq<u8>)
    ensures
        key_name(key).len() >= 1,
        forall|i: int| 0 <= i < key_name(key).len() ==> is_hex(#[trigger] key_name(key)[i]),
{
    reveal_strlit("00");
    reveal_strlit("0");
    lemma_hex_bytes_len(key);
    lemma_hex_bytes_chars(key);
}

proof fn lemma_hex_bytes_injective(a: Seq<u8>, b: Seq<u8>)
    requires
        hex_bytes(a) == hex_bytes(b),
    ensures
        a == b,
    decreases a.len(),
{
    lemma_hex_bytes_len(a);
    lemma_hex_bytes_len(b);
    if a.len() > 0 {
        let fa = hex_bytes(a.drop_last());
        let fb = hex_bytes(b.drop_last());
        let la = text::hex(a.last() as nat, 2);
        let lb = text::hex(b.last() as nat, 2);
        lemma_hex_bytes_len(a.drop_last());
        lemma_hex_bytes_len(b.drop_last());
        text::lemma_hex_len(a.last() as nat, 2);
        text::lemma_hex_len(b.last() as nat, 2);
        assert(fa =~= hex_bytes(a).take(fa.len() as int));
        assert(fb =~= hex_bytes(b).take(fb.len() as int));
        assert(la =~= hex_bytes(a).skip(fa.len() as int));
        assert(lb =~= hex_bytes(b).skip(fb.len() as int));
        lemma_hex_bytes_injective(a.drop_last(), b.drop_last());
        text::lemma_hex_of_byte_injective(a.last(), b.last());
        assert(a =~= a.drop_last().push(a.last()));
        assert(b =~= b.drop_last().push(b.last()));
    } else {
        assert(a =~= b);
    }
}

proof fn lemma_hex_of_zero_byte()
    ensures
        hex_bytes(seq![0u8]) == "00"@,
{
    reveal_strlit("00");
    let key = seq![0u8];
    assert(key.drop_last() =~= Seq::<u8>::empty());
    reveal_with_fuel(text::hex, 3);
    reveal_with_fuel(hex_bytes, 2);
    assert(hex_bytes(key) =~= "00"@);
}

/// Two keys have different names.
pub proof fn law_keys_have_names_of_their_own(a: Seq<u8>, b: Seq<u8>)
    requires
        a != b,
    ensures
        key_name(a) != key_name(b),
{
    reveal_strlit("00");
    reveal_strlit("0");
    let zero = seq![0u8];
    lemma_hex_of_zero_byte();
    lemma_hex_bytes_len(a);
    lemma_hex_bytes_len(b);
    assert(a.len() == 0 ==> a =~= Seq::<u8>::empty());
    assert(b.len() == 0 ==> b =~= Seq::<u8>::empty());
    assert(a.len() == 1 && a[0] == 0 ==> a =~= zero);
    assert(b.len() == 1 && b[0] == 0 ==> b =~= zero);
    if key_name(a) == key_name(b) {
        if a.len() == 0 {
            lemma_hex_bytes_injective(b, zero);
        } else if b.len() == 0 {
            lemma_hex_bytes_injective(a, zero);
        } else if a != zero && b != zero {
            lemma_hex_bytes_injective(a, b);
        }
    }
}

/// Two nodes of one run have different directories, and no key of one leads into the
/// other's.
pub proof fn law_nodes_are_isolated(
    base: Seq<char>,
    pipeline: Seq<char>,
    run: Seq<char>,
    a: NodeId,
    b: NodeId,
    key_a: Seq<u8>,
    key_b: Seq<u8>,
)
    requires
        a@ != b@,
    ensures
        node_place(base, pipeline, run, a) != node_place(base, pipeline, run, b),
        node_place(base, pipeline, run, a).names.push(key_name(key_a)) != node_place(
            base,
            pipeline,
            run,
            b,
        ).names.push(key_name(key_b)),
{
    let na = node_place(base, pipeline, run, a).names;
    let nb = node_place(base, pipeline, run, b).names;
    if text::hex(a@ as nat, 16) == text::hex(b@ as nat, 16) {
        text::lemma_hex_of_word_injective(a@, b@);
    }
    assert(na[3] != nb[3]);
    assert(na.push(key_name(key_a))[3] == na[3]);
    assert(nb.push(key_name(key_b))[3] == nb[3]);
}

/// One node of two runs whose names differ has different directories.
pub proof fn law_runs_are_isolated(base: Seq<char>, pipeline: Seq<char>, run_a: Seq<char>, run_b: Seq<char>, node: NodeId)
    requires
        segment(run_a) != segment(run_b),
    ensures
        node_place(base, pipeline, run_a, node) != node_place(base, pipeline, run_b, node),
{
    assert(node_place(base, pipeline, run_a, node).names[1] == segment(run_a));
    assert(node_place(base, pipeline, run_b, node).names[1] == segment(run_b));
}

/// The directory of a node stands below the base under the names of its pipeline and its
/// run, the scratch directory, and the sixteen digits of its identity. A key is a file in
/// it, and is first written beside it, under a hidden name that the process and a number
/// make its own.
pub proof fn law_a_node_has_its_place(
    base: Seq<char>,
    pipeline: Seq<char>,
    run: Seq<char>,
    node: NodeId,
    key: Seq<u8>,
    process: u32,
    number: u64,
)
    ensures
        ({
            let place = node_place(base, pipeline, run, node);
            let plan = write_plan(place, key, process, number);
            &&& place.base == base
            &&& place.names.len() == 4
            &&& place.names[0] == segment(pipeline)
            &&& place.names[1] == segment(run)
            &&& place.names[2] == "scratch"@
            &&& place.names[3] == text::hex(node@ as nat, 16)
            &&& key_place(place, key).base == base
            &&& key_place(place, key).names == place.names + seq![key_name(key)]
            &&& plan.dir == place
            &&& plan.target == key_name(key)
            &&& plan.temporary == "."@ + key_name(key) + ".tmp."@ + text::decimal(process as nat) + "."@ + text::decimal(
                number as nat,
            )
        }),
{
    let place = node_place(base, pipeline, run, node);
    assert(place.names.push(key_name(key)) =~= place.names + seq![key_name(key)]);
}

/// A name keeps the letters, the digits, dashes, underscores and, but at its start, dots of
/// what it is made of, one for one; everything else becomes an underscore, and so does
/// nothing at all.
pub proof fn law_a_name_keeps_what_is_plain(id: Seq<char>, i: int)
    ensures
        id.len() == 0 ==> segment(id) == seq!['_'],
        id.len() > 0 ==> segment(id).len() == id.len(),
        0 <= i < id.len() ==> {
            let c = id[i];
            let kept = ('a' <= c <= 'z') || ('A' <= c <= 'Z') || ('0' <= c <= '9') || c == '-' || c == '_' || (c == '.'
                && i > 0);
            &&& kept ==> segment(id)[i] == c
            &&& !kept ==> segment(id)[i] == '_'
        },
{
}

/// The name of a key of two bytes or more, or of one that is not zero, holds two digits for
/// each byte, the high one first. The empty key and the key of one zero byte have names
/// that no such form is.
pub proof fn law_a_key_is_named_by_its_bytes(key: Seq<u8>, i: int)
    ensures
        key.len() == 0 ==> key_name(key) == seq!['0', '0'],
        key == seq![0u8] ==> key_name(key) == seq!['0'],
        key.len() > 0 && key != seq![0u8] ==> key_name(key).len() == 2 * key.len(),
        0 <= i < key.len() && key != seq![0u8] ==> {
            &&& key_name(key)[2 * i] == text::hex_digit((key[i] / 16) as int)
            &&& key_name(key)[2 * i + 1] == text::hex_digit((key[i] % 16) as int)
        },
{
    reveal_strlit("00");
    reveal_strlit("0");
    assert("00"@ =~= seq!['0', '0']);
    assert("0"@ =~= seq!['0']);
    assert(key.len() == 1 && key[0] == 0 ==> key =~= seq![0u8]);
    lemma_hex_bytes_len(key);
    if 0 <= i < key.len() {
        lemma_digits_of_byte(key, i);
    }
}

proof fn lemma_digits_of_byte(key: Seq<u8>, i: int)
    requires
        0 <= i < key.len(),
    ensures
        hex_bytes(key).len() == 2 * key.len(),
        hex_bytes(key)[2 * i] == text::hex_digit((key[i] / 16) as int),
        hex_bytes(key)[2 * i + 1] == text::hex_digit((key[i] % 16) as int),
    decreases key.len(),
{
    let front = hex_bytes(key.drop_last());
    let back = text::hex(key.last() as nat, 2);
    lemma_hex_bytes_len(key);
    lemma_hex_bytes_len(key.drop_last());
    text::lemma_hex_len(key.last() as nat, 2);
    if i < key.len() - 1 {
        lemma_digits_of_byte(key.drop_last(), i);
        assert(hex_bytes(key)[2 * i] == front[2 * i]);
        assert(hex_bytes(key)[2 * i + 1] == front[2 * i + 1]);
    } else {
        reveal_with_fuel(text::hex, 3);
        let n = key.last() as nat;
        assert(text::hex(n / 16, 1) =~= seq![text::hex_digit(((n / 16) % 16) as int)]);
        assert(n / 16 < 16);
        assert(back =~= seq![text::hex_digit((n / 16) as int), text::hex_digit((n % 16) as int)]);
        assert(hex_bytes(key)[2 * i] == back[0]);
        assert(hex_bytes(key)[2 * i + 1] == back[1]);
    }
}

/// What the storage read is what is read, byte for byte; what is not there is absent, and
/// no failure; and a failure is passed on with what the storage says. Removing what is not
/// there is no failure either.
pub proof fn law_replies_are_passed_on(
    reply: StoreReply<Vec<u8>>,
    r: Result<Option<Vec<u8>>, ScratchError>,
    gone: StoreReply<()>,
    removed: Result<(), ScratchError>,
)
    requires
        read_comes_to(reply, r),
        removal_comes_to(gone, removed),
    ensures
        reply is Done ==> (r matches Ok(Some(bytes)) && bytes@ == reply->Done_0@),
        reply is NotFound ==> (r matches Ok(found) && found is None),
        reply is Failed ==> (r matches Err(e) && e@.source == reply->Failed_0@ && e@.op == ScratchOp::Read),
        gone is Done || gone is NotFound ==> removed is Ok,
        gone is Failed ==> (removed matches Err(e) && e@.source == gone->Failed_0@ && e@.op == ScratchOp::Write),
{
}

} // verus!
