//! The process manager, which starts, lists and opens processes.

use crate::common::text::is_utf8;
use crate::object::handle::{placed, resolved, HandleEntry, HandleID, HandleTable, Handles};
use crate::object::invoke::InvocationError;
use crate::object::packet::{stream_header, PacketHeader, PacketType};
use crate::object::rights::AccessRights;
use crate::process::{Credentials, SYSTEM_USER};
use crate::program::{ElfLoadResult, LoaderError};
use crate::sched::ThreadPriority;
use vstd::prelude::*;
use vstd::utf8::valid_utf8;

verus! {

pub const DEFAULT_PROCESS_MEMORY_LIMIT: u64 = 64 * 1024 * 1024;

pub const DEFAULT_PROCESS_MEMORY_MAXIMUM: u64 = 1024 * 1024 * 1024;

pub const PROC_NAME_LEN_MAX: usize = 64;

/// The size of the stack that a process starts with.
pub const PROCESS_STACK_SIZE: u64 = 1024 * 1024;

/// A capability that a process is started with.
#[derive(Debug, Clone, Copy, PartialEq, Eq, Structural)]
pub struct CapabilityGrant {
    pub id: HandleID,
    pub rights: AccessRights,
    pub capability: u64,
}

/// On whose behalf a new process is to run.
#[derive(Debug, Clone, Copy, PartialEq, Eq, Structural)]
pub enum SpawnCredentials {
    Inherit,
    User(u32),
}

/// How a process is to be started. What had to be fetched from the memory of
/// the process that asks is missing where that could not be done.
pub struct SpawnRequest {
    pub name_len: usize,
    pub name: Option<Vec<u8>>,
    pub exec_handle: HandleID,
    pub root_handle: HandleID,
    pub root_rights: AccessRights,
    pub cwd_handle: HandleID,
    pub cwd_rights: AccessRights,
    pub source: HandleID,
    pub sink: HandleID,
    pub credentials: SpawnCredentials,
    pub capabilities_len: usize,
    pub capabilities: Option<Vec<CapabilityGrant>>,
    pub args_len: usize,
    pub args: Option<Vec<u8>>,
    pub start_suspended: bool,
}

/// The process that asks.
pub struct CallingProcess {
    pub handles: HandleTable,
    pub credentials: Credentials,
}

/// A process that is to be started.
pub struct ChildPlan {
    pub name: Vec<u8>,
    pub credentials: Credentials,
    pub handles: HandleTable,
    pub capabilities: Vec<CapabilityGrant>,
}

/// The handles that every process starts with.
#[derive(Debug, Clone, Copy, PartialEq, Eq, Structural)]
pub struct ProcessInitPackage {
    pub root_handle: HandleID,
    pub self_handle: HandleID,
    pub source_handle: HandleID,
    pub sink_handle: HandleID,
    pub memory_pool_handle: HandleID,
    pub cwd_handle: HandleID,
    pub capabilities_len: usize,
    pub argc: u64,
}

/// How the first thread of a process starts.
#[derive(Debug, Clone, Copy, PartialEq, Eq, Structural)]
pub struct ThreadStart {
    pub instruction: u64,
    pub stack_top: u64,
    pub argument: u64,
    pub priority: ThreadPriority,
    pub suspended: bool,
}

/// What the grants are, where there are any.
pub open spec fn grants_of(request: SpawnRequest) -> Seq<CapabilityGrant> {
    match request.capabilities {
        Some(grants) => grants@,
        None => Seq::empty(),
    }
}

/// What is wrong with the first of the first `n` grants that the parent could
/// not make.
pub open spec fn grant_fault(handles: Handles, grants: Seq<CapabilityGrant>, n: int) -> Option<
    InvocationError,
>
    decreases n,
{
    if n <= 0 {
        None
    } else {
        match grant_fault(handles, grants, n - 1) {
            Some(fault) => Some(fault),
            None => match resolved(handles, grants[n - 1].id, grants[n - 1].rights) {
                Err(fault) => Some(fault),
                Ok(_) => None,
            },
        }
    }
}

/// What is wrong with the name of a process.
pub open spec fn proc_name_fault(request: SpawnRequest) -> Option<InvocationError> {
    if request.name_len == 0 || request.name_len > PROC_NAME_LEN_MAX {
        Some(InvocationError::InvalidArgument)
    } else {
        match request.name {
            None => Some(InvocationError::InvalidPointer),
            Some(name) => if valid_utf8(name@) {
                None
            } else {
                Some(InvocationError::InvalidArgument)
            },
        }
    }
}

/// Why a process is not started, of all that is known before its program has
/// been loaded. The first reason that holds is the answer.
pub open spec fn spawn_fault(
    parent: Option<CallingProcess>,
    request: SpawnRequest,
    rights: AccessRights,
) -> Option<InvocationError> {
    if !rights.covers(AccessRights(AccessRights::CREATE)) {
        Some(InvocationError::AccessDenied)
    } else {
        match parent {
            None => Some(InvocationError::OutOfMemory),
            Some(parent) => {
                let handles = parent.handles@;
                let exec = resolved(
                    handles,
                    request.exec_handle,
                    AccessRights(AccessRights::READ | AccessRights::EXECUTE),
                );
                let root = resolved(handles, request.root_handle, request.root_rights);
                let cwd = resolved(handles, request.cwd_handle, request.cwd_rights);
                let grants = grants_of(request);
                if exec is Err {
                    Some(exec->Err_0)
                } else if root is Err {
                    Some(root->Err_0)
                } else if cwd is Err {
                    Some(cwd->Err_0)
                } else if request.capabilities_len > 0 && request.capabilities is None {
                    Some(InvocationError::InvalidPointer)
                } else if request.capabilities_len > 0 && grant_fault(
                    handles,
                    grants,
                    grants.len() as int,
                ) is Some {
                    grant_fault(handles, grants, grants.len() as int)
                } else if request.credentials is User && parent.credentials.user != SYSTEM_USER {
                    Some(InvocationError::AccessDenied)
                } else {
                    proc_name_fault(request)
                }
            },
        }
    }
}

/// An optional handle of a new process.
pub open spec fn passed(handles: Handles, id: HandleID, rights: AccessRights) -> Option<
    HandleEntry,
> {
    match resolved(handles, id, rights) {
        Ok(object) => Some(HandleEntry { object, rights }),
        Err(_) => None,
    }
}

/// The handles that a new process has before it is given any capability. The
/// second is kept for the process itself; the last keeps the program's file in
/// use.
pub open spec fn first_handles(handles: Handles, request: SpawnRequest, pool: u64) -> Handles {
    seq![
        passed(handles, request.root_handle, request.root_rights),
        None,
        passed(handles, request.source, AccessRights(AccessRights::READ)),
        passed(handles, request.sink, AccessRights(AccessRights::WRITE)),
        Some(
            HandleEntry {
                object: pool,
                rights: AccessRights(
                    AccessRights::WRITE | AccessRights::CREATE | AccessRights::MUTATE,
                ),
            },
        ),
        passed(handles, request.cwd_handle, request.cwd_rights),
        Some(
            HandleEntry {
                object: resolved(
                    handles,
                    request.exec_handle,
                    AccessRights(AccessRights::READ | AccessRights::EXECUTE),
                )->Ok_0,
                rights: AccessRights(AccessRights::READ),
            },
        ),
    ]
}

/// The handles that the first `n` grants make.
pub open spec fn granted_handles(handles: Handles, grants: Seq<CapabilityGrant>, n: int) -> Handles {
    Seq::new(n as nat, |i: int| passed(handles, grants[i].id, grants[i].rights))
}

/// The grants as the new process sees them, under its own handles.
pub open spec fn child_grants(grants: Seq<CapabilityGrant>, base: int, n: int) -> Seq<
    CapabilityGrant,
> {
    Seq::new(
        n as nat,
        |i: int|
            CapabilityGrant {
                id: HandleID((base + i) as usize),
                rights: grants[i].rights,
                capability: grants[i].capability,
            },
    )
}

/// The number of strings in a buffer of strings that end in a zero.
pub open spec fn zero_count(bytes: Seq<u8>) -> int
    decreases bytes.len(),
{
    if bytes.len() == 0 {
        0
    } else {
        zero_count(bytes.drop_last()) + if bytes.last() == 0 {
            1int
        } else {
            0
        }
    }
}

/// Counts the strings in a buffer of arguments.
pub fn count_args(args: &Vec<u8>) -> (r: u64)
    ensures
        r == zero_count(args@),
{
    let mut argc: u64 = 0;
    let mut i: usize = 0;
    while i < args.len()
        invariant
            i <= args@.len(),
            argc <= i,
            argc == zero_count(args@.take(i as int)),
        decreases args@.len() - i,
    {
        assert(args@.take(i + 1).drop_last() =~= args@.take(i as int));
        if args[i] == 0 {
            argc += 1;
        }
        i += 1;
    }
    assert(args@.take(args@.len() as int) =~= args@);
    argc
}

/// The process manager.
#[derive(Debug, Clone, Copy, PartialEq, Eq, Structural)]
pub struct ProcessManager {}

/// The handles and capabilities that a new process has once all grants have
/// been made, if they could be.
fn grant_all(parent: &HandleTable, grants: &Vec<CapabilityGrant>, table: &mut HandleTable) -> (r: Result<
    Vec<CapabilityGrant>,
    InvocationError,
>)
    ensures
        match grant_fault(parent@, grants@, grants@.len() as int) {
            Some(fault) => r == Err::<Vec<CapabilityGrant>, InvocationError>(fault),
            None => {
                &&& r is Ok
                &&& r->Ok_0@ == child_grants(
                    grants@,
                    old(table)@.len() as int,
                    grants@.len() as int,
                )
                &&& final(table)@ == old(table)@ + granted_handles(
                    parent@,
                    grants@,
                    grants@.len() as int,
                )
            },
        },
{
    let ghost base = table@;
    let mut out: Vec<CapabilityGrant> = Vec::new();
    let mut i: usize = 0;
    assert(table@ =~= base + granted_handles(parent@, grants@, 0));
    while i < grants.len()
        invariant
            i <= grants@.len(),
            base == old(table)@,
            grant_fault(parent@, grants@, i as int) is None,
            out@ =~= child_grants(grants@, base.len() as int, i as int),
            table@ == base + granted_handles(parent@, grants@, i as int),
        decreases grants@.len() - i,
    {
        let grant = grants[i];
        match parent.resolve(grant.id, grant.rights) {
            Err(fault) => {
                proof {
                    lemma_first_fault(parent@, grants@, i + 1, grants@.len() as int);
                }
                return Err(fault);
            },
            Ok(object) => {
                let id = table.insert(object, grant.rights);
                out.push(
                    CapabilityGrant { id, rights: grant.rights, capability: grant.capability },
                );
                assert(table@ =~= base + granted_handles(parent@, grants@, i + 1));
            },
        }
        i += 1;
    }
    Ok(out)
}

proof fn lemma_first_fault(handles: Handles, grants: Seq<CapabilityGrant>, i: int, n: int)
    requires
        i <= n,
        grant_fault(handles, grants, i) is Some,
    ensures
        grant_fault(handles, grants, n) == grant_fault(handles, grants, i),
    decreases n,
{
    if i < n {
        lemma_first_fault(handles, grants, i, n - 1);
    }
}

/// The child that a request asks for.
pub open spec fn is_child(
    child: ChildPlan,
    parent: CallingProcess,
    request: SpawnRequest,
    pool: u64,
) -> bool {
    let first = first_handles(parent.handles@, request, pool);
    let grants = if request.capabilities_len > 0 {
        grants_of(request)
    } else {
        Seq::empty()
    };
    &&& child.handles@ == first + granted_handles(
        parent.handles@,
        grants,
        grants.len() as int,
    )
    &&& child.capabilities@ == child_grants(grants, first.len() as int, grants.len() as int)
    &&& request.name is Some && child.name@ == request.name->0@
    &&& child.credentials.user == match request.credentials {
        SpawnCredentials::Inherit => parent.credentials.user,
        SpawnCredentials::User(user) => user,
    }
}

impl ProcessManager {
    /// The handles of a new process before it is given any capability.
    fn first_table(
        &self,
        parent: &HandleTable,
        request: &SpawnRequest,
        exec: u64,
        root: u64,
        cwd: u64,
        pool: u64,
    ) -> (r: HandleTable)
        requires
            resolved(
                parent@,
                request.exec_handle,
                AccessRights(AccessRights::READ | AccessRights::EXECUTE),
            ) == Ok::<u64, InvocationError>(exec),
            resolved(parent@, request.root_handle, request.root_rights) == Ok::<
                u64,
                InvocationError,
            >(root),
            resolved(parent@, request.cwd_handle, request.cwd_rights) == Ok::<u64, InvocationError>(
                cwd,
            ),
        ensures
            r@ == first_handles(parent@, *request, pool),
    {
        let mut table = HandleTable::new();
        table.insert_at(HandleID(0), root, request.root_rights);
        if let Ok(source) = parent.resolve(request.source, AccessRights(AccessRights::READ)) {
            table.insert_at(HandleID(2), source, AccessRights(AccessRights::READ));
        }
        if let Ok(sink) = parent.resolve(request.sink, AccessRights(AccessRights::WRITE)) {
            table.insert_at(HandleID(3), sink, AccessRights(AccessRights::WRITE));
        }
        table.insert_at(
            HandleID(4),
            pool,
            AccessRights(AccessRights::WRITE | AccessRights::CREATE | AccessRights::MUTATE),
        );
        table.insert_at(HandleID(5), cwd, request.cwd_rights);
        let _ = table.insert(exec, AccessRights(AccessRights::READ));
        assert(table@ =~= first_handles(parent@, *request, pool));
        table
    }

    /// Decides whether a process is started, and with what. `pool` is the
    /// memory pool made for it.
    pub fn prepare_spawn(
        &self,
        parent: &Option<CallingProcess>,
        request: &SpawnRequest,
        calling_rights: AccessRights,
        pool: u64,
    ) -> (r: Result<ChildPlan, InvocationError>)
        ensures
            match spawn_fault(*parent, *request, calling_rights) {
                Some(fault) => r == Err::<ChildPlan, InvocationError>(fault),
                None => r is Ok && is_child(r->Ok_0, (*parent)->0, *request, pool),
            },
    {
        if !calling_rights.has(AccessRights(AccessRights::CREATE)) {
            return Err(InvocationError::AccessDenied);
        }
        let parent = match parent {
            Some(parent) => parent,
            None => {
                return Err(InvocationError::OutOfMemory);
            },
        };
        let exec = match parent.handles.resolve(
            request.exec_handle,
            AccessRights(AccessRights::READ | AccessRights::EXECUTE),
        ) {
            Ok(exec) => exec,
            Err(fault) => {
                return Err(fault);
            },
        };
        let root = match parent.handles.resolve(request.root_handle, request.root_rights) {
            Ok(root) => root,
            Err(fault) => {
                return Err(fault);
            },
        };
        let cwd = match parent.handles.resolve(request.cwd_handle, request.cwd_rights) {
            Ok(cwd) => cwd,
            Err(fault) => {
                return Err(fault);
            },
        };
        let mut table = self.first_table(&parent.handles, request, exec, root, cwd, pool);
        let mut capabilities: Vec<CapabilityGrant> = Vec::new();
        if request.capabilities_len > 0 {
            match &request.capabilities {
                None => {
                    return Err(InvocationError::InvalidPointer);
                },
                Some(grants) => match grant_all(&parent.handles, grants, &mut table) {
                    Ok(granted) => {
                        capabilities = granted;
                    },
                    Err(fault) => {
                        return Err(fault);
                    },
                },
            }
        }
        proof {
            let first = first_handles(parent.handles@, *request, pool);
            assert(first + granted_handles(parent.handles@, Seq::empty(), 0) =~= first);
            assert(child_grants(Seq::empty(), first.len() as int, 0) =~= Seq::empty());
        }
        let credentials = match request.credentials {
            SpawnCredentials::Inherit => parent.credentials,
            SpawnCredentials::User(user) => {
                if !parent.credentials.is_system() {
                    return Err(InvocationError::AccessDenied);
                }
                Credentials::new(user)
            },
        };
        if request.name_len == 0 || request.name_len > PROC_NAME_LEN_MAX {
            return Err(InvocationError::InvalidArgument);
        }
        let name = match &request.name {
            Some(name) => copied(name),
            None => {
                return Err(InvocationError::InvalidPointer);
            },
        };
        if !is_utf8(&name) {
            return Err(InvocationError::InvalidArgument);
        }
        Ok(ChildPlan { name, credentials, handles: table, capabilities })
    }
}

/// The handles of a new process once it can refer to itself.
pub open spec fn own_handles(handles: Handles, process: u64) -> Handles {
    placed(
        handles,
        1,
        HandleEntry {
            object: process,
            rights: AccessRights(
                AccessRights::READ | AccessRights::WRITE | AccessRights::MUTATE
                    | AccessRights::CREATE,
            ),
        },
    )
}

/// The handles of a new process once its interpreter, if it has one, is among
/// them. The file has to stay there for the pages that are still to be read.
pub open spec fn with_interpreter(handles: Handles, interpreter: Option<u64>) -> Handles {
    match interpreter {
        Some(object) => handles.push(
            Some(HandleEntry { object, rights: AccessRights(AccessRights::READ) }),
        ),
        None => handles,
    }
}

/// What became of the parts of starting a process that are done elsewhere:
/// finding the file of the interpreter, where the program names one, loading
/// the program, reserving a stack, and laying out what the program starts
/// with, which gives the address of the package and the top of the stack that
/// is left.
pub struct SpawnSteps {
    pub process: u64,
    pub interpreter: Option<u64>,
    pub loaded: Result<ElfLoadResult, LoaderError>,
    pub stack: Option<u64>,
    pub injected: Result<(u64, u64), InvocationError>,
}

/// Why a process is not started after all.
pub open spec fn start_fault(request: SpawnRequest, steps: SpawnSteps) -> Option<InvocationError> {
    if steps.loaded is Err {
        Some(InvocationError::InvalidHandle)
    } else if request.args_len > 0 && request.args is None {
        Some(InvocationError::InvalidPointer)
    } else if steps.stack is None {
        Some(InvocationError::OutOfMemory)
    } else {
        match steps.injected {
            Err(fault) => Some(fault),
            Ok(_) => None,
        }
    }
}

/// The arguments of a new process.
pub open spec fn args_of(request: SpawnRequest) -> Seq<u8> {
    if request.args_len > 0 && request.args is Some {
        request.args->0@
    } else {
        Seq::empty()
    }
}

impl ProcessManager {
    /// What a new process finds when it starts.
    pub fn init_package(&self, child: &ChildPlan) -> (r: ProcessInitPackage)
        ensures
            r == (ProcessInitPackage {
                root_handle: HandleID(0),
                self_handle: HandleID(1),
                source_handle: HandleID(2),
                sink_handle: HandleID(3),
                memory_pool_handle: HandleID(4),
                cwd_handle: HandleID(5),
                capabilities_len: child.capabilities@.len() as usize,
                argc: 0,
            }),
    {
        ProcessInitPackage {
            root_handle: HandleID(0),
            self_handle: HandleID(1),
            source_handle: HandleID(2),
            sink_handle: HandleID(3),
            memory_pool_handle: HandleID(4),
            cwd_handle: HandleID(5),
            capabilities_len: child.capabilities.len(),
            argc: 0,
        }
    }

    /// The number of arguments that a new process is given.
    pub fn argc(&self, request: &SpawnRequest) -> (r: u64)
        ensures
            r == zero_count(args_of(*request)),
    {
        if request.args_len > 0 {
            if let Some(args) = &request.args {
                return count_args(args);
            }
        }
        0
    }

    /// Starts a process: it gets a handle to its interpreter and one to
    /// itself, and the one that asked for it gets a handle to it. The first thread starts in the
    /// interpreter, where the program has one.
    pub fn complete_spawn(
        &self,
        parent: &mut HandleTable,
        child: &mut ChildPlan,
        request: &SpawnRequest,
        steps: &SpawnSteps,
    ) -> (r: Result<(HandleID, ThreadStart), InvocationError>)
        ensures
            match start_fault(*request, *steps) {
                Some(fault) => {
                    &&& r == Err::<(HandleID, ThreadStart), InvocationError>(fault)
                    &&& final(parent)@ == old(parent)@
                },
                None => {
                    let loaded = steps.loaded->Ok_0;
                    let (package, stack_top) = steps.injected->Ok_0;
                    &&& r is Ok
                    &&& (r->Ok_0).0 .0 == old(parent)@.len()
                    &&& (r->Ok_0).1 == ThreadStart {
                        instruction: match loaded.interpreter_entry {
                            Some(entry) => entry,
                            None => loaded.entry_point,
                        },
                        stack_top,
                        argument: package,
                        priority: ThreadPriority::Medium,
                        suspended: request.start_suspended,
                    }
                    &&& final(parent)@ == old(parent)@.push(
                        Some(
                            HandleEntry {
                                object: steps.process,
                                rights: AccessRights(
                                    AccessRights::READ | AccessRights::WRITE | AccessRights::MUTATE,
                                ),
                            },
                        ),
                    )
                },
            },
            final(child).name == old(child).name,
            final(child).credentials == old(child).credentials,
            final(child).capabilities == old(child).capabilities,
            final(child).handles@ == if steps.loaded is Ok {
                own_handles(
                    with_interpreter(old(child).handles@, steps.interpreter),
                    steps.process,
                )
            } else {
                with_interpreter(old(child).handles@, steps.interpreter)
            },
    {
        if let Some(object) = steps.interpreter {
            child.handles.insert(object, AccessRights(AccessRights::READ));
        }
        let loaded = match steps.loaded {
            Ok(loaded) => loaded,
            Err(_) => {
                return Err(InvocationError::InvalidHandle);
            },
        };
        child.handles.insert_at(
            HandleID(1),
            steps.process,
            AccessRights(
                AccessRights::READ | AccessRights::WRITE | AccessRights::MUTATE
                    | AccessRights::CREATE,
            ),
        );
        if request.args_len > 0 && request.args.is_none() {
            return Err(InvocationError::InvalidPointer);
        }
        if steps.stack.is_none() {
            return Err(InvocationError::OutOfMemory);
        }
        let (package, stack_top) = match steps.injected {
            Ok(injected) => injected,
            Err(fault) => {
                return Err(fault);
            },
        };
        let instruction = match loaded.interpreter_entry {
            Some(entry) => entry,
            None => loaded.entry_point,
        };
        let handle = parent.insert(
            steps.process,
            AccessRights(AccessRights::READ | AccessRights::WRITE | AccessRights::MUTATE),
        );
        Ok(
            (
                handle,
                ThreadStart {
                    instruction,
                    stack_top,
                    argument: package,
                    priority: ThreadPriority::Medium,
                    suspended: request.start_suspended,
                },
            ),
        )
    }

    /// Opens a process for the one that asks. `process` is the process with
    /// the number that was given, if there is one.
    pub fn open(
        &self,
        caller: &mut Option<CallingProcess>,
        process: Option<u64>,
        rights: AccessRights,
        calling_rights: AccessRights,
    ) -> (r: Result<HandleID, InvocationError>)
        ensures
            match open_fault(*old(caller) is Some, process, rights, calling_rights) {
                Some(fault) => {
                    &&& r == Err::<HandleID, InvocationError>(fault)
                    &&& *final(caller) == *old(caller)
                },
                None => {
                    &&& r is Ok
                    &&& r->Ok_0.0 == (*old(caller))->0.handles@.len()
                    &&& *final(caller) is Some
                    &&& (*final(caller))->0.credentials == (*old(caller))->0.credentials
                    &&& (*final(caller))->0.handles@ == (*old(caller))->0.handles@.push(
                        Some(HandleEntry { object: process->0, rights: opened_rights(rights) }),
                    )
                },
            },
    {
        if !calling_rights.has(AccessRights(AccessRights::READ)) {
            return Err(InvocationError::AccessDenied);
        }
        let process = match process {
            Some(process) => process,
            None => {
                return Err(InvocationError::InvalidHandle);
            },
        };
        let granted = AccessRights(
            rights.0 & (AccessRights::READ | AccessRights::WRITE | AccessRights::MUTATE),
        );
        if granted == AccessRights::new() {
            return Err(InvocationError::AccessDenied);
        }
        match caller {
            Some(caller) => Ok(caller.handles.insert(process, granted)),
            None => Err(InvocationError::InvalidHandle),
        }
    }

    /// Lists the processes from number `offset` on. The reply is what is sent
    /// and the object that it is sent to, and how many processes there are.
    /// `records` holds what is told of each.
    pub fn list(
        &self,
        caller: &Option<CallingProcess>,
        records: &Vec<Vec<u8>>,
        offset: usize,
        sink: HandleID,
        calling_rights: AccessRights,
    ) -> (r: Result<ProcessList, InvocationError>)
        ensures
            match list_fault(*caller, sink, calling_rights) {
                Some(fault) => r == Err::<ProcessList, InvocationError>(fault),
                None => {
                    &&& r is Ok
                    &&& r->Ok_0.count == records@.len()
                    &&& r->Ok_0.sink == resolved(
                        (*caller)->0.handles@,
                        sink,
                        AccessRights(AccessRights::WRITE),
                    )->Ok_0
                    &&& are_sent(r->Ok_0.packets@, records@, offset as int)
                },
            },
    {
        if !calling_rights.has(AccessRights(AccessRights::LIST)) {
            return Err(InvocationError::AccessDenied);
        }
        let object = match caller {
            Some(caller) => match caller.handles.resolve(sink, AccessRights(AccessRights::WRITE)) {
                Ok(object) => object,
                Err(fault) => {
                    return Err(fault);
                },
            },
            None => {
                return Err(InvocationError::InvalidHandle);
            },
        };
        let mut packets: Vec<ProcessPacket> = Vec::new();
        let mut i = if offset < records.len() {
            offset
        } else {
            records.len()
        };
        let ghost from = i as int;
        assert(payloads(packets@) =~= bytes_of(records@.subrange(from, from)));
        while i < records.len()
            invariant
                from <= i <= records@.len(),
                from >= 0,
                payloads(packets@) == bytes_of(records@.subrange(from, i as int)),
                forall|j: int| 0 <= j < packets@.len() ==> (#[trigger] packets@[j]).wf(),
            decreases records@.len() - i,
        {
            let ghost before = packets@;
            let packet = ProcessPacket::new(copied(&records[i]));
            packets.push(packet);
            proof {
                assert(payloads(packets@) =~= payloads(before).push(packet.payload@));
                assert(bytes_of(records@.subrange(from, i + 1)) =~= bytes_of(
                    records@.subrange(from, i as int),
                ).push(records@[i as int]@));
            }
            i += 1;
        }
        let ghost before = packets@;
        let last = ProcessPacket::new(Vec::new());
        packets.push(last);
        assert(payloads(packets@) =~= payloads(before).push(last.payload@));
        Ok(ProcessList { packets, sink: object, count: records.len() })
    }
}

/// What is asked of the process manager.
pub enum ProcManOp {
    /// To start a process, with the memory pool that was made for it.
    Spawn(SpawnRequest, u64),
    /// To list processes, of each of which there is a record.
    List { records: Vec<Vec<u8>>, offset: usize, sink: HandleID },
    /// To open a process, if there is one with the number that was given.
    Open { process: Option<u64>, rights: AccessRights },
    /// Anything else.
    Other,
}

/// What the process manager answers.
pub enum ProcManReply {
    Child(ChildPlan),
    List(ProcessList),
    Handle(HandleID),
}

impl ProcessManager {
    /// Answers a request.
    pub fn invoke(
        &self,
        caller: &mut Option<CallingProcess>,
        op: &ProcManOp,
        calling_rights: AccessRights,
    ) -> (r: Result<ProcManReply, InvocationError>)
        ensures
            !(op is Open) ==> *final(caller) == *old(caller),
            match *op {
                ProcManOp::Spawn(request, pool) => match spawn_fault(
                    *old(caller),
                    request,
                    calling_rights,
                ) {
                    Some(fault) => r == Err::<ProcManReply, InvocationError>(fault),
                    None => r matches Ok(ProcManReply::Child(child)) && is_child(
                        child,
                        (*old(caller))->0,
                        request,
                        pool,
                    ),
                },
                ProcManOp::List { records, offset, sink } => match list_fault(
                    *old(caller),
                    sink,
                    calling_rights,
                ) {
                    Some(fault) => r == Err::<ProcManReply, InvocationError>(fault),
                    None => r matches Ok(ProcManReply::List(list)) && list.count == records@.len()
                        && list.sink == resolved(
                        (*old(caller))->0.handles@,
                        sink,
                        AccessRights(AccessRights::WRITE),
                    )->Ok_0 && are_sent(list.packets@, records@, offset as int),
                },
                ProcManOp::Open { process, rights } => match open_fault(
                    *old(caller) is Some,
                    process,
                    rights,
                    calling_rights,
                ) {
                    Some(fault) => r == Err::<ProcManReply, InvocationError>(fault)
                        && *final(caller) == *old(caller),
                    None => {
                        let before = (*old(caller))->0;
                        let after = (*final(caller))->0;
                        &&& r matches Ok(ProcManReply::Handle(id)) && id.0 == before.handles@.len()
                        &&& *final(caller) is Some
                        &&& after.credentials == before.credentials
                        &&& after.handles@ == before.handles@.push(
                            Some(HandleEntry { object: process->0, rights: opened_rights(rights) }),
                        )
                    },
                },
                ProcManOp::Other => r == Err::<ProcManReply, InvocationError>(
                    InvocationError::UnsupportedOperation,
                ),
            },
    {
        match op {
            ProcManOp::Spawn(request, pool) => match self.prepare_spawn(
                caller,
                request,
                calling_rights,
                *pool,
            ) {
                Ok(child) => Ok(ProcManReply::Child(child)),
                Err(fault) => Err(fault),
            },
            ProcManOp::List { records, offset, sink } => match self.list(
                caller,
                records,
                *offset,
                *sink,
                calling_rights,
            ) {
                Ok(list) => Ok(ProcManReply::List(list)),
                Err(fault) => Err(fault),
            },
            ProcManOp::Open { process, rights } => match self.open(
                caller,
                *process,
                *rights,
                calling_rights,
            ) {
                Ok(handle) => Ok(ProcManReply::Handle(handle)),
                Err(fault) => Err(fault),
            },
            ProcManOp::Other => Err(InvocationError::UnsupportedOperation),
        }
    }
}

/// The rights to a process that one who opens it gets of those asked for.
pub open spec fn opened_rights(rights: AccessRights) -> AccessRights {
    AccessRights(rights.0 & (AccessRights::READ | AccessRights::WRITE | AccessRights::MUTATE))
}

/// Why a process is not opened.
pub open spec fn open_fault(
    has_caller: bool,
    process: Option<u64>,
    rights: AccessRights,
    calling_rights: AccessRights,
) -> Option<InvocationError> {
    if !calling_rights.covers(AccessRights(AccessRights::READ)) {
        Some(InvocationError::AccessDenied)
    } else if process is None {
        Some(InvocationError::InvalidHandle)
    } else if opened_rights(rights) == AccessRights(0) {
        Some(InvocationError::AccessDenied)
    } else if !has_caller {
        Some(InvocationError::InvalidHandle)
    } else {
        None
    }
}

/// One packet of a list of processes. The last one is empty.
pub struct ProcessPacket {
    pub header: PacketHeader,
    pub payload: Vec<u8>,
}

impl ProcessPacket {
    /// The header tells the length of what follows it.
    pub open spec fn wf(&self) -> bool {
        self.header == stream_header(
            PacketType::ProcessInfo,
            self.payload@.len() as u32,
            false,
        )
    }

    fn new(payload: Vec<u8>) -> (r: Self)
        ensures
            r.payload@ == payload@,
            r.wf(),
    {
        let header = PacketHeader::stream(PacketType::ProcessInfo, payload.len() as u32, false);
        ProcessPacket { header, payload }
    }
}

/// A list of processes, and where it goes.
pub struct ProcessList {
    pub packets: Vec<ProcessPacket>,
    pub sink: u64,
    pub count: usize,
}

pub open spec fn payloads(packets: Seq<ProcessPacket>) -> Seq<Seq<u8>> {
    packets.map_values(|p: ProcessPacket| p.payload@)
}

pub open spec fn bytes_of(records: Seq<Vec<u8>>) -> Seq<Seq<u8>> {
    records.map_values(|r: Vec<u8>| r@)
}

/// What is sent of a list of processes from number `offset` on.
pub open spec fn sent(records: Seq<Vec<u8>>, offset: int) -> Seq<Seq<u8>> {
    let from = if offset < records.len() {
        offset
    } else {
        records.len() as int
    };
    bytes_of(records.subrange(from, records.len() as int)).push(Seq::empty())
}

/// The packets are those for a list of processes from number `offset` on.
pub open spec fn are_sent(packets: Seq<ProcessPacket>, records: Seq<Vec<u8>>, offset: int) -> bool {
    &&& payloads(packets) == sent(records, offset)
    &&& forall|i: int| 0 <= i < packets.len() ==> (#[trigger] packets[i]).wf()
}

/// Why processes are not listed.
pub open spec fn list_fault(
    caller: Option<CallingProcess>,
    sink: HandleID,
    calling_rights: AccessRights,
) -> Option<InvocationError> {
    if !calling_rights.covers(AccessRights(AccessRights::LIST)) {
        Some(InvocationError::AccessDenied)
    } else {
        match caller {
            None => Some(InvocationError::InvalidHandle),
            Some(caller) => match resolved(caller.handles@, sink, AccessRights(AccessRights::WRITE)) {
                Err(fault) => Some(fault),
                Ok(_) => None,
            },
        }
    }
}

/// A run of bytes that is written to an object piece by piece.
#[derive(Debug, Clone, Copy, PartialEq, Eq, Structural)]
pub struct WriteAll {
    pub total: usize,
    pub written: usize,
}

impl WriteAll {
    pub fn new(total: usize) -> (r: Self)
        ensures
            r == (WriteAll { total, written: 0 }),
    {
        WriteAll { total, written: 0 }
    }

    /// What is to be written next: where it starts, and its length.
    pub fn next(&self) -> (r: Option<(usize, usize)>)
        ensures
            r == if self.written < self.total {
                Some((self.written, (self.total - self.written) as usize))
            } else {
                None
            },
    {
        if self.written < self.total {
            Some((self.written, self.total - self.written))
        } else {
            None
        }
    }

    /// Takes the object's answer, which is the number of bytes it took. An
    /// object that takes none cannot be written to.
    pub fn advance(&mut self, reply: Result<usize, InvocationError>) -> (r: Result<
        (),
        InvocationError,
    >)
        ensures
            final(self).total == old(self).total,
            match reply {
                Err(fault) => r == Err::<(), InvocationError>(fault) && *final(self) == *old(self),
                Ok(count) => if count == 0 {
                    r == Err::<(), InvocationError>(InvocationError::UnsupportedOperation)
                        && *final(self) == *old(self)
                } else {
                    r is Ok && final(self).written == if old(self).written + count > usize::MAX {
                        usize::MAX as int
                    } else {
                        old(self).written + count
                    }
                },
            },
    {
        let count = match reply {
            Ok(count) => count,
            Err(fault) => {
                return Err(fault);
            },
        };
        if count == 0 {
            return Err(InvocationError::UnsupportedOperation);
        }
        self.written = self.written.saturating_add(count);
        Ok(())
    }
}

/// A handle to `entry.object` with at least its rights is among the handles.
pub open spec fn is_held(handles: Handles, entry: HandleEntry) -> bool {
    exists|i: int|
        0 <= i < handles.len() && (#[trigger] handles[i]) is Some && handles[i]->0.object
            == entry.object && handles[i]->0.rights.covers(entry.rights)
}

proof fn lemma_passed_is_held(handles: Handles, id: HandleID, rights: AccessRights)
    ensures
        passed(handles, id, rights) matches Some(entry) ==> is_held(handles, entry),
{
    if passed(handles, id, rights) is Some {
        assert(handles[id.0 as int] is Some);
    }
}

/// A new process can do nothing with an object that the process which started
/// it could not, but for the memory pool that is made for it.
pub proof fn law_child_holds_no_more(
    child: ChildPlan,
    parent: CallingProcess,
    request: SpawnRequest,
    pool: u64,
    i: int,
)
    requires
        is_child(child, parent, request, pool),
        spawn_fault(Some(parent), request, AccessRights(0x3F)) is None,
        0 <= i < child.handles@.len(),
        i != 4,
        child.handles@[i] is Some,
    ensures
        is_held(parent.handles@, child.handles@[i]->0),
{
    let handles = parent.handles@;
    let grants = grants_of(request);
    let exec = AccessRights(AccessRights::READ | AccessRights::EXECUTE);
    lemma_passed_is_held(handles, request.root_handle, request.root_rights);
    lemma_passed_is_held(handles, request.source, AccessRights(AccessRights::READ));
    lemma_passed_is_held(handles, request.sink, AccessRights(AccessRights::WRITE));
    lemma_passed_is_held(handles, request.cwd_handle, request.cwd_rights);
    if i == 6 {
        let held = handles[request.exec_handle.0 as int]->0;
        let x = held.rights.0;
        assert(1u32 & (1u32 | 4u32) == 1u32 && (x & (1u32 | 4u32) == (1u32 | 4u32) ==> x & 1 == 1u32))
            by (bit_vector);
        assert(handles[request.exec_handle.0 as int] is Some);
    }
    if i > 6 {
        lemma_passed_is_held(handles, grants[i - 7].id, grants[i - 7].rights);
    }
}

fn copied(bytes: &Vec<u8>) -> (r: Vec<u8>)
    ensures
        r@ == bytes@,
{
    crate::common::bytes::copy_bytes(bytes, 0, bytes.len())
}

} // verus!
