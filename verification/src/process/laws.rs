//! What a process is started with, and what is told of the processes there
//! are.

use crate::object::handle::{resolved, HandleEntry, HandleID, Handles};
use crate::object::invoke::InvocationError;
use crate::object::packet::PacketType;
use crate::object::rights::AccessRights;
use crate::process::procman::{
    are_sent, args_of, bytes_of, grant_fault, grants_of, is_child, list_fault, open_fault, opened_rights,
    own_handles, payloads, sent, spawn_fault, start_fault, with_interpreter, zero_count, CallingProcess,
    CapabilityGrant, ChildPlan, ProcessPacket, SpawnCredentials, SpawnRequest, SpawnSteps,
};
use crate::process::SYSTEM_USER;
use vstd::prelude::*;
use vstd::utf8::valid_utf8;

verus! {

/// Handle `id` among `handles` is one to `object` with at least `rights`.
pub open spec fn gives(handles: Handles, id: int, object: u64, rights: AccessRights) -> bool {
    &&& 0 <= id < handles.len()
    &&& handles[id] matches Some(entry) && entry.object == object && entry.rights.covers(rights)
}

/// Handle `to` is one to the object that handle `from` stands for, with the
/// given rights and no others. The holder of `from` has these rights.
pub open spec fn handed_on(
    handles: Handles,
    from: HandleID,
    child: Handles,
    to: int,
    rights: AccessRights,
) -> bool {
    exists|object: u64|
        {
            &&& #[trigger] gives(handles, from.0 as int, object, rights)
            &&& 0 <= to < child.len()
            &&& child[to] == Some(HandleEntry { object, rights })
        }
}

/// A handle that was not there to be handed on is not there.
pub open spec fn handed_on_if_there(
    handles: Handles,
    from: HandleID,
    child: Handles,
    to: int,
    rights: AccessRights,
) -> bool {
    if exists|object: u64| #[trigger] gives(handles, from.0 as int, object, rights) {
        handed_on(handles, from, child, to, rights)
    } else {
        0 <= to < child.len() && child[to] is None
    }
}

/// A handle is resolved to the object it stands for, for one who asks for
/// nothing that the handle does not allow. One that is not there is invalid,
/// and one that allows less is of no use.
pub proof fn law_handle_is_resolved(handles: Handles, id: HandleID, rights: AccessRights)
    ensures
        forall|object: u64|
            resolved(handles, id, rights) == Ok::<u64, InvocationError>(object) <==> #[trigger] gives(
                handles,
                id.0 as int,
                object,
                rights,
            ),
        resolved(handles, id, rights) == Err::<u64, InvocationError>(InvocationError::InvalidHandle)
            <==> id.0 >= handles.len() || handles[id.0 as int] is None,
        resolved(handles, id, rights) == Err::<u64, InvocationError>(InvocationError::AccessDenied)
            <==> id.0 < handles.len() && handles[id.0 as int] is Some && !(
        handles[id.0 as int]->0.rights.covers(rights)),
{
}

proof fn lemma_grants(handles: Handles, grants: Seq<CapabilityGrant>, n: int)
    requires
        0 <= n <= grants.len(),
    ensures
        grant_fault(handles, grants, n) is None <==> forall|i: int|
            0 <= i < n ==> resolved(handles, (#[trigger] grants[i]).id, grants[i].rights) is Ok,
    decreases n,
{
    if n > 0 {
        lemma_grants(handles, grants, n - 1);
        assert(grants[n - 1] == grants[n - 1]);
    }
}

/// What the new process is granted, where anything is.
pub open spec fn granted(request: SpawnRequest) -> Seq<CapabilityGrant> {
    if request.capabilities_len > 0 {
        grants_of(request)
    } else {
        Seq::empty()
    }
}

/// A new process has, under the handles it knows, what the one that started
/// it named: its root and working directory, what it reads from and writes to
/// where these are there, its pool, and the file of its program, and then
/// one handle for each capability, in their order. The handle to itself is
/// kept free.
pub proof fn law_child_has_what_was_named(
    child: ChildPlan,
    parent: CallingProcess,
    request: SpawnRequest,
    rights: AccessRights,
    pool: u64,
)
    requires
        spawn_fault(Some(parent), request, rights) is None,
        is_child(child, parent, request, pool),
    ensures
        ({
            let from = parent.handles@;
            let to = child.handles@;
            let grants = granted(request);
            let read = AccessRights(AccessRights::READ);
            let write = AccessRights(AccessRights::WRITE);
            let exec = AccessRights(AccessRights::READ | AccessRights::EXECUTE);
            &&& to.len() == 7 + grants.len()
            &&& handed_on(from, request.root_handle, to, 0, request.root_rights)
            &&& to[1] is None
            &&& handed_on_if_there(from, request.source, to, 2, read)
            &&& handed_on_if_there(from, request.sink, to, 3, write)
            &&& to[4] == Some(
                HandleEntry {
                    object: pool,
                    rights: AccessRights(
                        AccessRights::WRITE | AccessRights::CREATE | AccessRights::MUTATE,
                    ),
                },
            )
            &&& handed_on(from, request.cwd_handle, to, 5, request.cwd_rights)
            &&& to[6] matches Some(file) && file.rights == read && gives(
                from,
                request.exec_handle.0 as int,
                file.object,
                exec,
            )
            &&& child.capabilities@.len() == grants.len()
            &&& forall|i: int|
                0 <= i < grants.len() ==> {
                    let grant = #[trigger] child.capabilities@[i];
                    &&& grant.capability == grants[i].capability
                    &&& grant.rights == grants[i].rights
                    &&& 7 + i <= usize::MAX ==> grant.id.0 == 7 + i
                    &&& handed_on(from, grants[i].id, to, 7 + i, grants[i].rights)
                }
        }),
{
    let from = parent.handles@;
    let to = child.handles@;
    let grants = granted(request);
    let read = AccessRights(AccessRights::READ);
    let write = AccessRights(AccessRights::WRITE);
    law_handle_is_resolved(from, request.root_handle, request.root_rights);
    law_handle_is_resolved(from, request.cwd_handle, request.cwd_rights);
    law_handle_is_resolved(from, request.source, read);
    law_handle_is_resolved(from, request.sink, write);
    law_handle_is_resolved(
        from,
        request.exec_handle,
        AccessRights(AccessRights::READ | AccessRights::EXECUTE),
    );
    lemma_handed_on(from, request.root_handle, to, 0, request.root_rights);
    lemma_handed_on(from, request.cwd_handle, to, 5, request.cwd_rights);
    lemma_handed_on(from, request.source, to, 2, read);
    lemma_handed_on(from, request.sink, to, 3, write);
    lemma_grants(from, grants, grants.len() as int);
    assert forall|i: int| 0 <= i < grants.len() implies {
        let grant = #[trigger] child.capabilities@[i];
        &&& grant.capability == grants[i].capability
        &&& grant.rights == grants[i].rights
        &&& 7 + i <= usize::MAX ==> grant.id.0 == 7 + i
        &&& handed_on(from, grants[i].id, to, 7 + i, grants[i].rights)
    } by {
        assert(resolved(from, grants[i].id, grants[i].rights) is Ok);
        lemma_handed_on(from, grants[i].id, to, 7 + i, grants[i].rights);
    }
}

proof fn lemma_handed_on(
    handles: Handles,
    from: HandleID,
    child: Handles,
    to: int,
    rights: AccessRights,
)
    requires
        0 <= to < child.len(),
    ensures
        resolved(handles, from, rights) matches Ok(object) && child[to] == Some(
            HandleEntry { object, rights },
        ) ==> handed_on(handles, from, child, to, rights),
        resolved(handles, from, rights) is Err ==> !exists|object: u64|
            #[trigger] gives(handles, from.0 as int, object, rights),
{
    law_handle_is_resolved(handles, from, rights);
    if let Ok(object) = resolved(handles, from, rights) {
        assert(gives(handles, from.0 as int, object, rights));
    }
}

/// A process is started for one who may create processes, can read and execute
/// the program, has all it wants to hand on, gives a name that is text and
/// neither empty nor too long, and acts for another user only as the system;
/// and for no one else.
pub proof fn law_spawn_is_allowed(
    parent: Option<CallingProcess>,
    request: SpawnRequest,
    rights: AccessRights,
)
    ensures
        spawn_fault(parent, request, rights) is None <==> {
            &&& rights.covers(AccessRights(AccessRights::CREATE))
            &&& parent is Some
            &&& resolved(
                parent->0.handles@,
                request.exec_handle,
                AccessRights(AccessRights::READ | AccessRights::EXECUTE),
            ) is Ok
            &&& resolved(parent->0.handles@, request.root_handle, request.root_rights) is Ok
            &&& resolved(parent->0.handles@, request.cwd_handle, request.cwd_rights) is Ok
            &&& request.capabilities_len > 0 ==> request.capabilities is Some
            &&& forall|i: int|
                0 <= i < granted(request).len() ==> resolved(
                    parent->0.handles@,
                    (#[trigger] granted(request)[i]).id,
                    granted(request)[i].rights,
                ) is Ok
            &&& request.credentials is User ==> parent->0.credentials.user == SYSTEM_USER
            &&& 1 <= request.name_len <= 64
            &&& request.name is Some
            &&& valid_utf8(request.name->0@)
        },
        !rights.covers(AccessRights(AccessRights::CREATE)) ==> spawn_fault(parent, request, rights)
            == Some(InvocationError::AccessDenied),
{
    if parent is Some {
        lemma_grants(parent->0.handles@, granted(request), granted(request).len() as int);
    }
}

/// A new process has the name it was given, and acts for the user that it was
/// started for, which is that of the one who started it if no other was named.
pub proof fn law_child_acts_for_its_user(
    child: ChildPlan,
    parent: CallingProcess,
    request: SpawnRequest,
    pool: u64,
)
    requires
        is_child(child, parent, request, pool),
    ensures
        request.name matches Some(name) && child.name@ == name@,
        request.credentials == SpawnCredentials::Inherit ==> child.credentials.user
            == parent.credentials.user,
        request.credentials matches SpawnCredentials::User(user) ==> child.credentials.user == user,
{
}

/// A process that is started can do as it likes with itself, under the second
/// handle, and keeps the file of its interpreter in use, under the last. Its
/// other handles stay what they were.
pub proof fn law_started_process_knows_itself(
    handles: Handles,
    interpreter: Option<u64>,
    process: u64,
    i: int,
)
    requires
        handles.len() >= 2,
        0 <= i < handles.len(),
        i != 1,
    ensures
        ({
            let after = own_handles(with_interpreter(handles, interpreter), process);
            &&& after[1] == Some(
                HandleEntry {
                    object: process,
                    rights: AccessRights(
                        AccessRights::READ | AccessRights::WRITE | AccessRights::MUTATE
                            | AccessRights::CREATE,
                    ),
                },
            )
            &&& after[i] == handles[i]
            &&& interpreter is None ==> after.len() == handles.len()
            &&& interpreter matches Some(file) ==> {
                &&& after.len() == handles.len() + 1
                &&& after[handles.len() as int] == Some(
                    HandleEntry { object: file, rights: AccessRights(AccessRights::READ) },
                )
            }
        }),
{
}

/// A process starts if and only if its program could be loaded, its arguments
/// could be fetched, and there is a stack with what it starts with on it.
pub proof fn law_process_starts_when_all_is_there(request: SpawnRequest, steps: SpawnSteps)
    ensures
        start_fault(request, steps) is None <==> steps.loaded is Ok && (request.args_len == 0
            || request.args is Some) && steps.stack is Some && steps.injected is Ok,
        steps.loaded is Err ==> start_fault(request, steps) == Some(InvocationError::InvalidHandle),
        steps.loaded is Ok && request.args_len > 0 && request.args is None ==> start_fault(
            request,
            steps,
        ) == Some(InvocationError::InvalidPointer),
        start_fault(request, steps) == Some(InvocationError::OutOfMemory) <== steps.loaded is Ok
            && request.args is Some && steps.stack is None,
{
}

/// Every argument counts once: one more string, with the zero that ends it,
/// adds one to the count, and no string counts as none.
pub proof fn law_arguments_are_counted(args: Seq<u8>, arg: Seq<u8>)
    requires
        forall|i: int| 0 <= i < arg.len() ==> #[trigger] arg[i] != 0,
    ensures
        zero_count(Seq::empty()) == 0,
        zero_count(args + arg.push(0)) == zero_count(args) + 1,
        zero_count(args + arg) == zero_count(args),
    decreases arg.len(),
{
    let one = args + arg.push(0);
    assert(one.drop_last() =~= args + arg);
    assert(one.last() == 0);
    assert(zero_count(one) == zero_count(one.drop_last()) + 1);
    if arg.len() > 0 {
        let all = args + arg;
        assert(all.drop_last() =~= args + arg.drop_last());
        assert(all.last() == arg.last());
        assert(arg.last() == arg[arg.len() - 1]);
        assert forall|i: int| 0 <= i < arg.drop_last().len() implies #[trigger] arg.drop_last()[i]
            != 0 by {
            assert(arg[i] != 0);
        }
        law_arguments_are_counted(args, arg.drop_last());
    } else {
        assert(args + arg =~= args);
    }
}

/// The arguments are those that were given, where any were.
pub proof fn law_arguments_are_passed_on(request: SpawnRequest)
    ensures
        request.args_len > 0 && request.args is Some ==> args_of(request) == request.args->0@,
        request.args_len == 0 ==> args_of(request).len() == 0,
{
}

/// The list of processes goes out whole: one packet for each process from the
/// given one on, in their order and with what is told of it, and an empty one
/// after them. Every packet tells how long it is.
pub proof fn law_process_list_is_whole(
    packets: Seq<ProcessPacket>,
    records: Seq<Vec<u8>>,
    offset: int,
    i: int,
)
    requires
        0 <= offset,
        are_sent(packets, records, offset),
        0 <= i < packets.len(),
    ensures
        packets.len() == 1 + if offset < records.len() {
            records.len() - offset
        } else {
            0
        },
        packets.last().payload@.len() == 0,
        i < packets.len() - 1 ==> packets[i].payload@ == records[offset + i]@,
        packets[i].payload@.len() <= u32::MAX ==> packets[i].header.payload_len
            == packets[i].payload@.len(),
        packets[i].header.packet_type == PacketType::ProcessInfo,
        packets[i].header.is_stream,
        !packets[i].header.has_next,
{
    let last = packets.len() - 1;
    let list = sent(records, offset);
    assert(payloads(packets) == list);
    assert(payloads(packets).len() == packets.len());
    assert(payloads(packets)[i] == packets[i].payload@);
    assert(payloads(packets)[last] == packets[last].payload@);
    assert(packets[i].wf());
    if i < last {
        assert(bytes_of(records.subrange(offset, records.len() as int))[i] == records[offset + i]@);
    }
}

/// Processes are listed for one who may list them and can write to where the
/// list is to go, and for no one else.
pub proof fn law_listing_is_allowed(
    caller: Option<CallingProcess>,
    sink: HandleID,
    rights: AccessRights,
)
    ensures
        list_fault(caller, sink, rights) is None <==> rights.covers(
            AccessRights(AccessRights::LIST),
        ) && caller is Some && resolved(
            caller->0.handles@,
            sink,
            AccessRights(AccessRights::WRITE),
        ) is Ok,
{
}

/// One who opens a process gets those of the rights to read, write and change
/// it that were asked for, and no other right. Without any of these, or the
/// right to read the manager, nothing is opened.
pub proof fn law_opened_process_gets_what_was_asked(
    has_caller: bool,
    process: Option<u64>,
    rights: AccessRights,
    calling: AccessRights,
)
    ensures
        ({
            let got = opened_rights(rights);
            let read = AccessRights(AccessRights::READ);
            let write = AccessRights(AccessRights::WRITE);
            let mutate = AccessRights(AccessRights::MUTATE);
            &&& rights.covers(got)
            &&& got.covers(read) == rights.covers(read)
            &&& got.covers(write) == rights.covers(write)
            &&& got.covers(mutate) == rights.covers(mutate)
            &&& AccessRights(
                AccessRights::READ | AccessRights::WRITE | AccessRights::MUTATE,
            ).covers(got)
            &&& open_fault(has_caller, process, rights, calling) is None <==> calling.covers(read)
                && process is Some && has_caller && (rights.covers(read) || rights.covers(write)
                || rights.covers(mutate))
        }),
{
    let r = rights.0;
    assert({
        let m = 1u32 | 2u32 | 0x10u32;
        let g = r & m;
        &&& r & g == g
        &&& (g & 1 == 1u32) == (r & 1 == 1u32)
        &&& (g & 2 == 2u32) == (r & 2 == 2u32)
        &&& (g & 0x10 == 0x10u32) == (r & 0x10 == 0x10u32)
        &&& m & g == g
        &&& (g == 0) == (r & 1 != 1u32 && r & 2 != 2u32 && r & 0x10 != 0x10u32)
    }) by (bit_vector);
}

} // verus!
