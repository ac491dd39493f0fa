use vespertine::object::directory::validate_child_name;
use vespertine::object::handle::{HandleID, HandleTable};
use vespertine::object::invoke::InvocationError;
use vespertine::object::rights::AccessRights;
use vespertine::process::procman::{
    count_args, CallingProcess, CapabilityGrant, ProcManOp, ProcManReply, ProcessManager,
    SpawnCredentials, SpawnRequest, SpawnSteps, WriteAll, DEFAULT_PROCESS_MEMORY_LIMIT,
    DEFAULT_PROCESS_MEMORY_MAXIMUM,
};
use vespertine::object::packet::PacketType;
use vespertine::process::{current_process, init_kernel_process, Credentials};
use vespertine::program::{ElfLoadResult, LoaderError};
use vespertine::sched::ThreadPriority;

const MANAGER: ProcessManager = ProcessManager {};

fn rights(bits: u32) -> AccessRights {
    AccessRights(bits)
}

fn caller(user: u32) -> CallingProcess {
    let mut handles = HandleTable::new();
    handles.insert(100, AccessRights::all());
    handles.insert(101, rights(AccessRights::READ | AccessRights::EXECUTE));
    handles.insert(102, rights(AccessRights::READ));
    handles.insert(103, rights(AccessRights::WRITE));
    CallingProcess { handles, credentials: Credentials::new(user) }
}

fn request() -> SpawnRequest {
    SpawnRequest {
        name_len: 4,
        name: Some(b"dusk".to_vec()),
        exec_handle: HandleID(1),
        root_handle: HandleID(0),
        root_rights: rights(AccessRights::READ),
        cwd_handle: HandleID(0),
        cwd_rights: rights(AccessRights::READ | AccessRights::LIST),
        source: HandleID(2),
        sink: HandleID(9),
        credentials: SpawnCredentials::Inherit,
        capabilities_len: 0,
        capabilities: None,
        args_len: 0,
        args: None,
        start_suspended: false,
    }
}

fn fault_of(process: Option<CallingProcess>, request: SpawnRequest, bits: u32) -> InvocationError {
    match MANAGER.prepare_spawn(&process, &request, rights(bits), 50) {
        Err(fault) => fault,
        Ok(_) => panic!("the process was started"),
    }
}

#[test]
fn handles_stand_for_objects() {
    let mut table = HandleTable::new();
    let a = table.insert(7, rights(AccessRights::READ));
    assert_eq!(table.resolve(a, rights(AccessRights::READ)), Ok(7));
    assert_eq!(
        table.resolve(a, rights(AccessRights::READ | AccessRights::WRITE)),
        Err(InvocationError::AccessDenied)
    );
    table.insert_at(HandleID(4), 8, AccessRights::all());
    assert_eq!(table.resolve(HandleID(4), AccessRights::all()), Ok(8));
    assert_eq!(table.resolve(HandleID(3), AccessRights::new()), Err(InvocationError::InvalidHandle));
    assert_eq!(table.insert(9, AccessRights::new()), HandleID(5));
    assert!(table.close(a).is_ok());
    assert_eq!(table.close(a), Err(InvocationError::InvalidHandle));
    assert_eq!(table.resolve(a, AccessRights::new()), Err(InvocationError::InvalidHandle));
    assert_eq!(table.insert(10, AccessRights::new()), HandleID(6));
}

#[test]
fn rights_are_checked() {
    let both = rights(AccessRights::READ | AccessRights::WRITE);
    assert!(both.has(rights(AccessRights::READ)));
    assert!(!rights(AccessRights::READ).has(both));
    assert!(both.err_if_no(both).is_ok());
    assert_eq!(
        both.err_if_no(rights(AccessRights::LIST)),
        Err(InvocationError::AccessDenied)
    );
}

#[test]
fn child_gets_its_handles() {
    let parent = Some(caller(0));
    let child =
        MANAGER.prepare_spawn(&parent, &request(), rights(AccessRights::CREATE), 50).unwrap();
    assert_eq!(child.name, b"dusk".to_vec());
    let read = rights(AccessRights::READ);
    assert_eq!(child.handles.resolve(HandleID(0), read), Ok(100));
    assert_eq!(child.handles.resolve(HandleID(1), read), Err(InvocationError::InvalidHandle));
    assert_eq!(child.handles.resolve(HandleID(2), read), Ok(102));
    assert_eq!(child.handles.resolve(HandleID(3), read), Err(InvocationError::InvalidHandle));
    assert_eq!(child.handles.resolve(HandleID(4), rights(AccessRights::MUTATE)), Ok(50));
    assert_eq!(child.handles.resolve(HandleID(5), rights(AccessRights::LIST)), Ok(100));
    assert_eq!(child.handles.resolve(HandleID(6), read), Ok(101));
    assert_eq!(
        child.handles.resolve(HandleID(6), rights(AccessRights::EXECUTE)),
        Err(InvocationError::AccessDenied)
    );
    let package = MANAGER.init_package(&child);
    assert_eq!(package.cwd_handle, HandleID(5));
    assert_eq!(package.capabilities_len, 0);
}

#[test]
fn capabilities_are_passed_on_with_fewer_rights() {
    let parent = Some(caller(0));
    let mut asked = request();
    let grant = CapabilityGrant { id: HandleID(0), rights: rights(AccessRights::WRITE), capability: 77 };
    asked.capabilities_len = 1;
    asked.capabilities = Some(vec![grant]);
    let child = MANAGER.prepare_spawn(&parent, &asked, rights(AccessRights::CREATE), 50).unwrap();
    assert_eq!(child.capabilities.len(), 1);
    assert_eq!(child.capabilities[0].id, HandleID(7));
    assert_eq!(child.capabilities[0].capability, 77);
    assert_eq!(child.handles.resolve(HandleID(7), rights(AccessRights::WRITE)), Ok(100));
    assert_eq!(
        child.handles.resolve(HandleID(7), rights(AccessRights::READ)),
        Err(InvocationError::AccessDenied)
    );
}

#[test]
fn spawn_is_refused_for_the_first_reason() {
    let create = AccessRights::CREATE;
    assert_eq!(fault_of(Some(caller(0)), request(), 0), InvocationError::AccessDenied);
    assert_eq!(fault_of(None, request(), create), InvocationError::OutOfMemory);
    let mut bad = request();
    bad.exec_handle = HandleID(2);
    assert_eq!(fault_of(Some(caller(0)), bad, create), InvocationError::AccessDenied);
    let mut bad = request();
    bad.root_handle = HandleID(20);
    assert_eq!(fault_of(Some(caller(0)), bad, create), InvocationError::InvalidHandle);
    let mut bad = request();
    bad.cwd_handle = HandleID(3);
    assert_eq!(fault_of(Some(caller(0)), bad, create), InvocationError::AccessDenied);
    let mut bad = request();
    bad.capabilities_len = 1;
    assert_eq!(fault_of(Some(caller(0)), bad, create), InvocationError::InvalidPointer);
    let mut bad = request();
    bad.capabilities_len = 1;
    bad.capabilities =
        Some(vec![CapabilityGrant { id: HandleID(2), rights: rights(AccessRights::WRITE), capability: 1 }]);
    assert_eq!(fault_of(Some(caller(0)), bad, create), InvocationError::AccessDenied);
    let mut bad = request();
    bad.credentials = SpawnCredentials::User(5);
    assert_eq!(fault_of(Some(caller(4)), bad, create), InvocationError::AccessDenied);
    let mut bad = request();
    bad.name_len = 0;
    assert_eq!(fault_of(Some(caller(0)), bad, create), InvocationError::InvalidArgument);
    let mut bad = request();
    bad.name_len = 65;
    assert_eq!(fault_of(Some(caller(0)), bad, create), InvocationError::InvalidArgument);
    let mut bad = request();
    bad.name = None;
    assert_eq!(fault_of(Some(caller(0)), bad, create), InvocationError::InvalidPointer);
    let mut bad = request();
    bad.name = Some(vec![0xC3, 0x28, 0x41, 0x42]);
    assert_eq!(fault_of(Some(caller(0)), bad, create), InvocationError::InvalidArgument);
}

#[test]
fn system_can_start_processes_for_users() {
    let mut asked = request();
    asked.credentials = SpawnCredentials::User(5);
    let child =
        MANAGER.prepare_spawn(&Some(caller(0)), &asked, rights(AccessRights::CREATE), 50).unwrap();
    assert_eq!(child.credentials.user, 5);
    let child =
        MANAGER.prepare_spawn(&Some(caller(9)), &request(), rights(AccessRights::CREATE), 50).unwrap();
    assert_eq!(child.credentials.user, 9);
}

fn loaded() -> ElfLoadResult {
    ElfLoadResult {
        entry_point: 0x40_1000,
        phdr_addr: 0x40_0040,
        phnum: 3,
        base_addr: 0,
        interpreter_entry: None,
    }
}

#[test]
fn process_is_started() {
    let mut parent = caller(0);
    let mut asked = request();
    asked.args_len = 9;
    asked.args = Some(b"ls\0-l\0/x\0".to_vec());
    assert_eq!(MANAGER.argc(&asked), 3);
    let mut child =
        MANAGER.prepare_spawn(&Some(caller(0)), &asked, rights(AccessRights::CREATE), 50).unwrap();
    let mut steps = SpawnSteps {
        process: 60,
        interpreter: None,
        loaded: Ok(loaded()),
        stack: Some(0x7000),
        injected: Ok((0x7F00, 0x7E00)),
    };
    let (handle, start) =
        MANAGER.complete_spawn(&mut parent.handles, &mut child, &asked, &steps).unwrap();
    assert_eq!(handle, HandleID(4));
    assert_eq!(start.instruction, 0x40_1000);
    assert_eq!(start.stack_top, 0x7E00);
    assert_eq!(start.priority, ThreadPriority::Medium);
    assert_eq!(start.argument, 0x7F00);
    assert_eq!(parent.handles.resolve(handle, rights(AccessRights::MUTATE)), Ok(60));
    assert_eq!(child.handles.resolve(HandleID(1), rights(AccessRights::CREATE)), Ok(60));

    let mut with_interpreter = loaded();
    with_interpreter.interpreter_entry = Some(0x40_0000_0500);
    steps.loaded = Ok(with_interpreter);
    steps.interpreter = Some(71);
    let mut child =
        MANAGER.prepare_spawn(&Some(caller(0)), &asked, rights(AccessRights::CREATE), 50).unwrap();
    let file = child.handles.insert(70, rights(AccessRights::READ));
    let (_, start) =
        MANAGER.complete_spawn(&mut parent.handles, &mut child, &asked, &steps).unwrap();
    assert_eq!(start.instruction, 0x40_0000_0500);
    let kept = HandleID(file.0 + 1);
    assert_eq!(child.handles.resolve(kept, rights(AccessRights::READ)), Ok(71));
    assert!(child.handles.resolve(kept, rights(AccessRights::WRITE)).is_err());
    assert_eq!(child.handles.resolve(HandleID(1), rights(AccessRights::CREATE)), Ok(60));

    steps.injected = Err(InvocationError::NameTooLong);
    let fault = MANAGER.complete_spawn(&mut parent.handles, &mut child, &asked, &steps);
    assert_eq!(fault.unwrap_err(), InvocationError::NameTooLong);
    steps.stack = None;
    let fault = MANAGER.complete_spawn(&mut parent.handles, &mut child, &asked, &steps);
    assert_eq!(fault.unwrap_err(), InvocationError::OutOfMemory);
    asked.args = None;
    let fault = MANAGER.complete_spawn(&mut parent.handles, &mut child, &asked, &steps);
    assert_eq!(fault.unwrap_err(), InvocationError::InvalidPointer);
    steps.loaded = Err(LoaderError::InvalidMagicNumbers);
    let fault = MANAGER.complete_spawn(&mut parent.handles, &mut child, &asked, &steps);
    assert_eq!(fault.unwrap_err(), InvocationError::InvalidHandle);
}

#[test]
fn processes_are_listed_from_an_offset_on() {
    let records = vec![vec![1u8], vec![2, 2], vec![3]];
    let process = Some(caller(0));
    let list =
        MANAGER.list(&process, &records, 1, HandleID(3), rights(AccessRights::LIST)).unwrap();
    assert_eq!(list.count, 3);
    assert_eq!(list.sink, 103);
    for packet in &list.packets {
        assert_eq!((packet.header.version, packet.header.is_stream), (1, true));
        assert_eq!((packet.header.has_next, packet.header.reserved), (false, 0));
        assert_eq!(packet.header.packet_type, PacketType::ProcessInfo);
        assert_eq!(packet.header.payload_len as usize, packet.payload.len());
    }
    let payloads: Vec<Vec<u8>> = list.packets.into_iter().map(|p| p.payload).collect();
    assert_eq!(payloads, vec![vec![2, 2], vec![3], vec![]]);
    let list =
        MANAGER.list(&process, &records, 9, HandleID(3), rights(AccessRights::LIST)).unwrap();
    assert_eq!(list.packets.len(), 1);
    assert!(MANAGER.list(&process, &records, 0, HandleID(2), rights(AccessRights::LIST)).is_err());
    assert!(MANAGER.list(&process, &records, 0, HandleID(3), AccessRights::new()).is_err());
    assert!(MANAGER.list(&None, &records, 0, HandleID(3), rights(AccessRights::LIST)).is_err());
}

#[test]
fn processes_are_opened() {
    let mut process = Some(caller(0));
    let read = rights(AccessRights::READ);
    let handle = MANAGER.open(&mut process, Some(70), AccessRights::all(), read).unwrap();
    let table = &process.as_ref().unwrap().handles;
    assert_eq!(table.resolve(handle, rights(AccessRights::MUTATE)), Ok(70));
    assert_eq!(table.resolve(handle, rights(AccessRights::EXECUTE)), Err(InvocationError::AccessDenied));
    assert_eq!(
        MANAGER.open(&mut process, Some(70), rights(AccessRights::EXECUTE), read),
        Err(InvocationError::AccessDenied)
    );
    assert_eq!(
        MANAGER.open(&mut process, None, read, read),
        Err(InvocationError::InvalidHandle)
    );
    assert_eq!(
        MANAGER.open(&mut process, Some(70), read, AccessRights::new()),
        Err(InvocationError::AccessDenied)
    );
    assert_eq!(MANAGER.open(&mut None, Some(70), read, read), Err(InvocationError::InvalidHandle));
}

#[test]
fn manager_answers_requests() {
    let mut process = Some(caller(0));
    let all = AccessRights::all();
    let reply = MANAGER.invoke(&mut process, &ProcManOp::Spawn(request(), 50), all);
    assert!(matches!(reply, Ok(ProcManReply::Child(_))));
    let open = ProcManOp::Open { process: Some(3), rights: all };
    assert!(matches!(
        MANAGER.invoke(&mut process, &open, all),
        Ok(ProcManReply::Handle(HandleID(4)))
    ));
    let list = ProcManOp::List { records: vec![], offset: 0, sink: HandleID(3) };
    assert!(matches!(MANAGER.invoke(&mut process, &list, all), Ok(ProcManReply::List(_))));
    assert!(matches!(
        MANAGER.invoke(&mut process, &ProcManOp::Other, all),
        Err(InvocationError::UnsupportedOperation)
    ));
}

#[test]
fn bytes_are_written_piece_by_piece() {
    let mut run = WriteAll::new(10);
    assert_eq!(run.next(), Some((0, 10)));
    run.advance(Ok(4)).unwrap();
    assert_eq!(run.next(), Some((4, 6)));
    assert_eq!(run.advance(Ok(0)), Err(InvocationError::UnsupportedOperation));
    assert_eq!(
        run.advance(Err(InvocationError::AccessDenied)),
        Err(InvocationError::AccessDenied)
    );
    run.advance(Ok(6)).unwrap();
    assert_eq!(run.next(), None);
}

#[test]
fn arguments_are_counted() {
    assert_eq!(count_args(&vec![]), 0);
    assert_eq!(count_args(&b"a\0b\0".to_vec()), 2);
    assert_eq!(count_args(&b"abc".to_vec()), 0);
}

#[test]
fn kernel_has_a_process() {
    let kernel = init_kernel_process(0xFFF0_0000_1234_5678, 1, 2);
    assert_eq!(kernel.name, b"Vespertine".to_vec());
    assert_eq!(kernel.root_addr, 0x0000_0000_1234_5000);
    assert!(kernel.credentials.is_system());
    assert_eq!(kernel.handles.resolve(HandleID(0), AccessRights::all()), Ok(1));
    assert_eq!(kernel.handles.resolve(HandleID(1), AccessRights::all()), Ok(2));
    assert_eq!(current_process(None, Some(2)), Some(2));
    assert_eq!(current_process(Some(5), Some(2)), Some(5));
    assert_eq!(DEFAULT_PROCESS_MEMORY_LIMIT, 67_108_864);
    assert_eq!(DEFAULT_PROCESS_MEMORY_MAXIMUM, 1_073_741_824);
}

#[test]
fn names_of_children_are_checked() {
    assert!(validate_child_name(&b"ok".to_vec()).is_ok());
    assert!(validate_child_name(&vec![b'x'; 254]).is_ok());
    assert_eq!(validate_child_name(&vec![b'x'; 255]), Err(InvocationError::NameTooLong));
    assert_eq!(validate_child_name(&b"a/b".to_vec()), Err(InvocationError::InvalidArgument));
}
