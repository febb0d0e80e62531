//! The coordinator's decisions in moving a vnode between nodes: which files
//! to fetch and where, when a streamed chunk or a downloaded file is to be
//! refused, the manifest record that a node sends back, and the changes to
//! the replication set.

use vstd::prelude::*;
use crate::edit_codec::{enc_edit, edit_fits, CodecError};
use crate::summary::{EditView, VersionEdit};

verus! {

/// The status code of a successful response.
pub const SUCCESS_RESPONSE_CODE: i32 = 0;

/// Why a move of a vnode failed.
#[derive(Debug)]
pub enum CoordinatorError {
    TenantNotFound { name: String },
    VnodeNotFound { id: u32 },
    GRPCRequest { msg: String },
    CommonError { msg: String },
    /// A node sent bytes that are not a manifest record.
    Decode { codec_error: CodecError },
}

/// Where a vnode lives.
pub struct VnodeAllInfo {
    pub tenant: String,
    pub db_name: String,
    pub vnode_id: u32,
    pub node_id: u64,
    pub bucket_id: u32,
    pub repl_set_id: u32,
}

/// One replica of a vnode.
#[derive(Clone, Copy, Debug, PartialEq, Eq, Structural)]
pub struct VnodeInfo {
    pub id: u32,
    pub node_id: u64,
}

/// A node of the meta cluster.
pub struct ClusterNode {
    pub rpc_addr: String,
    pub api_addr: String,
}

/// Moves vnodes onto the node it runs on.
pub struct VnodeManager {
    node_id: u64,
}

/// The first string followed by the second.
fn concat2(a: &str, b: &str) -> (r: String)
    ensures
        r@ == a@ + b@,
{
    let mut r = a.to_owned();
    r.append(b);
    r
}

/// Relies on `str::strip_prefix`: the rest after `prefix` where `s` starts
/// with it, and `None` where it does not.
#[verifier::external_body]
fn strip_prefix(s: &str, prefix: &str) -> (r: Option<String>)
    ensures
        r is None <==> !(prefix@.len() <= s@.len() && s@.subrange(0, prefix@.len() as int) == prefix@),
        r matches Some(rest) ==> s@ == prefix@ + rest@,
{
    s.strip_prefix(prefix).map(|rest| rest.to_string())
}

/// Relies on `format!`: a message naming a failed status and its data.
#[verifier::external_body]
fn status_message(code: i32, data: &Vec<u8>) -> (r: String) {
    format!("server status: {}, {:?}", code, data)
}

/// The namespace of a database: tenant, a dot, database.
pub fn make_owner(tenant: &str, db: &str) -> (r: String)
    ensures
        r@ == tenant@ + seq!['.'] + db@,
{
    let t = concat2(tenant, ".");
    proof {
        reveal_strlit(".");
    }
    let r = concat2(t.as_str(), db);
    assert(r@ =~= tenant@ + seq!['.'] + db@);
    r
}

/// `name` lies inside the directory `path`: it is `path`, a slash, and more.
pub open spec fn in_dir(path: Seq<char>, name: Seq<char>) -> bool {
    exists|rest: Seq<char>| name == path + seq!['/'] + rest
}

/// The name of a file relative to the directory `path` that the source
/// node names: what follows `path` and a slash.
pub fn relative_file_name(path: &str, name: &str) -> (r: Option<String>)
    ensures
        r matches Some(rest) ==> name@ == path@ + seq!['/'] + rest@,
        r is None ==> forall|rest: Seq<char>| name@ != path@ + seq!['/'] + rest,
{
    let prefix = concat2(path, "/");
    proof {
        reveal_strlit("/");
    }
    let r = strip_prefix(name, prefix.as_str());
    proof {
        if r is None {
            assert forall|rest: Seq<char>| name@ != path@ + seq!['/'] + rest by {
                if name@ == path@ + seq!['/'] + rest {
                    assert(name@.subrange(0, prefix@.len() as int) =~= prefix@);
                }
            }
        }
    }
    r
}

/// A streamed chunk is taken only with the success code.
pub fn check_chunk(code: i32, data: &Vec<u8>) -> (r: Result<(), CoordinatorError>)
    ensures
        r is Ok <==> code == SUCCESS_RESPONSE_CODE,
        r is Err ==> r matches Err(CoordinatorError::GRPCRequest { .. }),
{
    if code != SUCCESS_RESPONSE_CODE {
        return Err(CoordinatorError::GRPCRequest { msg: status_message(code, data) });
    }
    Ok(())
}

/// A downloaded file is kept only where its checksum is the one the source
/// node named.
pub fn check_md5(expected: &String, actual: &String) -> (r: Result<(), CoordinatorError>)
    ensures
        r is Ok <==> expected@ == actual@,
        r matches Err(e) ==> (e matches CoordinatorError::CommonError { msg } && msg@ == "download file md5 not match "@),
{
    if expected.eq(actual) {
        Ok(())
    } else {
        Err(CoordinatorError::CommonError { msg: "download file md5 not match ".to_owned() })
    }
}

/// The manifest record that a source node sends back: refused with its
/// status where that is not success; else read from the data.
pub fn decode_summary_response(code: i32, data: &Vec<u8>) -> (r: Result<VersionEdit, CoordinatorError>)
    ensures
        code != SUCCESS_RESPONSE_CODE ==> (r matches Err(CoordinatorError::GRPCRequest { .. })),
        code == SUCCESS_RESPONSE_CODE ==> (r matches Ok(e) ==> enc_edit(e@) == data@),
        code == SUCCESS_RESPONSE_CODE ==> forall|v: EditView| edit_fits(v) && data@ == #[trigger] enc_edit(v) ==> (r matches Ok(e) && e@ == v),
{
    if code != SUCCESS_RESPONSE_CODE {
        return Err(CoordinatorError::GRPCRequest { msg: status_message(code, data) });
    }
    match VersionEdit::decode(data.as_slice()) {
        Ok(e) => Ok(e),
        Err(e) => Err(CoordinatorError::Decode { codec_error: e }),
    }
}

impl VnodeManager {
    pub fn new(node_id: u64) -> (r: VnodeManager)
        ensures
            r.node_id() == node_id,
    {
        VnodeManager { node_id }
    }

    pub closed spec fn node_id(&self) -> u64 {
        self.node_id
    }

    pub fn get_node_id(&self) -> (r: u64)
        ensures
            r == self.node_id(),
    {
        self.node_id
    }

    /// The replica to add once the copy of a vnode under `new_id` is here.
    pub fn added_replica(&self, new_id: u32) -> (r: Vec<VnodeInfo>)
        ensures
            r@ == seq![VnodeInfo { id: new_id, node_id: self.node_id() }],
    {
        let r = vec![VnodeInfo { id: new_id, node_id: self.node_id }];
        assert(r@ =~= seq![VnodeInfo { id: new_id, node_id: self.node_id() }]);
        r
    }

    /// The replica to drop once a vnode has moved away from its node.
    pub fn dropped_replica(&self, info: &VnodeAllInfo) -> (r: Vec<VnodeInfo>)
        ensures
            r@ == seq![VnodeInfo { id: info.vnode_id, node_id: info.node_id }],
    {
        let r = vec![VnodeInfo { id: info.vnode_id, node_id: info.node_id }];
        assert(r@ =~= seq![VnodeInfo { id: info.vnode_id, node_id: info.node_id }]);
        r
    }

    /// The files to fetch: each name relative to the directory the source
    /// node named. A name outside that directory is an error.
    pub fn files_to_fetch(&self, path: &str, names: &Vec<String>) -> (r: Result<Vec<String>, CoordinatorError>)
        ensures
            r matches Ok(rel) ==> rel@.len() == names@.len() && forall|k: int| 0 <= k < names@.len() ==> names@[k]@ == path@ + seq!['/'] + (#[trigger] rel@[k])@,
            r is Ok <==> forall|k: int| 0 <= k < names@.len() ==> in_dir(path@, #[trigger] names@[k]@),
    {
        let mut rel: Vec<String> = Vec::new();
        let mut i: usize = 0;
        while i < names.len()
            invariant
                i <= names@.len(),
                rel@.len() == i,
                forall|k: int| 0 <= k < i ==> names@[k]@ == path@ + seq!['/'] + (#[trigger] rel@[k])@,
            decreases names@.len() - i,
        {
            match relative_file_name(path, names[i].as_str()) {
                Some(r) => {
                    rel.push(r);
                },
                None => {
                    proof {
                        assert(!(exists|rest: Seq<char>| names@[i as int]@ == path@ + seq!['/'] + rest));
                        assert(!in_dir(path@, names@[i as int]@));
                    }
                    return Err(CoordinatorError::CommonError { msg: "file outside the vnode directory".to_owned() });
                },
            }
            i += 1;
        }
        proof {
            assert forall|k: int| 0 <= k < names@.len() implies in_dir(path@, #[trigger] names@[k]@) by {
                assert(names@[k]@ == path@ + seq!['/'] + rel@[k]@);
            }
        }
        Ok(rel)
    }
}

impl ClusterNode {
    pub fn new(rpc_addr: String, api_addr: String) -> (r: ClusterNode)
        ensures
            r.rpc_addr@ == rpc_addr@,
            r.api_addr@ == api_addr@,
    {
        ClusterNode { rpc_addr, api_addr }
    }
}

/// Where a copy of a vnode stands.
#[derive(Clone, Copy, Debug, PartialEq, Eq, Structural)]
pub enum CopyState {
    /// Nothing done yet.
    Start,
    /// `done` of `total` files are here and checked.
    Downloading { done: u64, total: u64 },
    /// Every file is here; the new replica is being registered.
    Registering,
    /// The replica is registered; the source's manifest record is being applied.
    Applying,
    Done,
    Failed,
}

/// What happened since the last step.
#[derive(Clone, Copy, Debug, PartialEq, Eq, Structural)]
pub enum CopyEvent {
    /// The source listed this many files.
    Listed { count: u64 },
    /// A file arrived; whether its checksum matched.
    FileFetched { md5_ok: bool },
    ReplicaAdded,
    SummaryApplied,
    /// A call failed.
    CallFailed,
}

/// What to do next.
#[derive(Clone, Copy, Debug, PartialEq, Eq, Structural)]
pub enum CopyAction {
    ListFiles,
    FetchFile { index: u64 },
    AddReplica,
    FetchAndApplySummary,
    /// Remove the partly copied directory and report the failure.
    RemoveDirAndFail,
    /// Report the failure; the files are kept, the replica being registered.
    Fail,
    Finish,
    /// The event does not fit the state: nothing to do.
    Ignore,
}

/// The step table of a copy: files are fetched one by one and each is
/// checked; any failure while fetching removes the copied directory; once
/// all are here the new replica is registered, then the source's manifest
/// record is applied. An event that does not fit the state changes nothing.
pub open spec fn copy_next(state: CopyState, event: CopyEvent) -> (CopyState, CopyAction) {
    match (state, event) {
        (CopyState::Start, CopyEvent::CallFailed) => (CopyState::Failed, CopyAction::RemoveDirAndFail),
        (CopyState::Downloading { .. }, CopyEvent::CallFailed) => (CopyState::Failed, CopyAction::RemoveDirAndFail),
        (CopyState::Registering, CopyEvent::CallFailed) => (CopyState::Failed, CopyAction::Fail),
        (CopyState::Applying, CopyEvent::CallFailed) => (CopyState::Failed, CopyAction::Fail),
        (CopyState::Start, CopyEvent::Listed { count }) => if count == 0 {
            (CopyState::Registering, CopyAction::AddReplica)
        } else {
            (CopyState::Downloading { done: 0, total: count }, CopyAction::FetchFile { index: 0 })
        },
        (CopyState::Downloading { done, total }, CopyEvent::FileFetched { md5_ok }) => if !md5_ok {
            (CopyState::Failed, CopyAction::RemoveDirAndFail)
        } else if done + 1 < total {
            (CopyState::Downloading { done: (done + 1) as u64, total }, CopyAction::FetchFile { index: (done + 1) as u64 })
        } else {
            (CopyState::Registering, CopyAction::AddReplica)
        },
        (CopyState::Registering, CopyEvent::ReplicaAdded) => (CopyState::Applying, CopyAction::FetchAndApplySummary),
        (CopyState::Applying, CopyEvent::SummaryApplied) => (CopyState::Done, CopyAction::Finish),
        _ => (state, CopyAction::Ignore),
    }
}

/// One step of copying a vnode, as the step table says.
pub fn copy_step(state: CopyState, event: CopyEvent) -> (r: (CopyState, CopyAction))
    ensures
        r == copy_next(state, event),
{
    match (state, event) {
        (CopyState::Start, CopyEvent::CallFailed) => (CopyState::Failed, CopyAction::RemoveDirAndFail),
        (CopyState::Downloading { .. }, CopyEvent::CallFailed) => (CopyState::Failed, CopyAction::RemoveDirAndFail),
        (CopyState::Registering, CopyEvent::CallFailed) => (CopyState::Failed, CopyAction::Fail),
        (CopyState::Applying, CopyEvent::CallFailed) => (CopyState::Failed, CopyAction::Fail),
        (CopyState::Start, CopyEvent::Listed { count }) => {
            if count == 0 {
                (CopyState::Registering, CopyAction::AddReplica)
            } else {
                (CopyState::Downloading { done: 0, total: count }, CopyAction::FetchFile { index: 0 })
            }
        },
        (CopyState::Downloading { done, total }, CopyEvent::FileFetched { md5_ok }) => {
            if !md5_ok {
                (CopyState::Failed, CopyAction::RemoveDirAndFail)
            } else if done < u64::MAX && done + 1 < total {
                (CopyState::Downloading { done: done + 1, total }, CopyAction::FetchFile { index: done + 1 })
            } else {
                (CopyState::Registering, CopyAction::AddReplica)
            }
        },
        (CopyState::Registering, CopyEvent::ReplicaAdded) => (CopyState::Applying, CopyAction::FetchAndApplySummary),
        (CopyState::Applying, CopyEvent::SummaryApplied) => (CopyState::Done, CopyAction::Finish),
        _ => (state, CopyAction::Ignore),
    }
}

/// Any failure before the files are all here removes the copied
/// directory; a copy only finishes after its replica is registered and the
/// manifest record applied.
pub proof fn lemma_copy_failure_cleans_up(state: CopyState, event: CopyEvent)
    ensures
        (state is Start || state is Downloading) && (event is CallFailed || event == (CopyEvent::FileFetched { md5_ok: false }))
            && !(state is Start && event is FileFetched)
            ==> copy_next(state, event) == (CopyState::Failed, CopyAction::RemoveDirAndFail),
        copy_next(state, event).1 == CopyAction::Finish ==> state == CopyState::Applying && event == CopyEvent::SummaryApplied,
{
}

} // verus!
