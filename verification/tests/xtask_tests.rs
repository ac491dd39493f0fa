use vespertine::xtask::{end_sector, plan, Action, Command, PART_SECTORS, PART_START};

fn actions(command: Command) -> Vec<Action> {
    plan(command).into_iter().map(|step| step.action).collect()
}

fn build(kernel: bool, userland: bool, ports: bool, package: bool) -> Vec<Action> {
    actions(Command::Build { kernel, userland, ports, package })
}

#[test]
fn build_without_choice_builds_all() {
    let all = vec![Action::KernelAssembly, Action::Kernel, Action::Userland];
    assert_eq!(build(false, false, false, false), all);
    assert_eq!(build(true, true, false, false), all);
}

#[test]
fn build_builds_what_was_chosen() {
    assert_eq!(build(true, false, false, false), vec![Action::KernelAssembly, Action::Kernel]);
    assert_eq!(build(false, false, true, false), vec![Action::Headers, Action::Ports]);
    assert_eq!(build(false, false, false, true), vec![Action::Package]);
    assert_eq!(build(false, true, false, true), vec![Action::Userland]);
}

#[test]
fn commands_have_their_steps() {
    assert_eq!(
        actions(Command::Prep),
        vec![
            Action::KernelAssembly,
            Action::Kernel,
            Action::Userland,
            Action::StageDisk,
            Action::UpdateDisk,
            Action::Iso,
        ]
    );
    let steps = plan(Command::UpdateDisk);
    assert_eq!(steps.len(), 3);
    assert!(steps[1].counts);
    assert!(!steps[2].counts);
    assert_eq!(actions(Command::Clean), vec![Action::Clean]);
    assert_eq!(actions(Command::Run), vec![Action::Run]);
    assert_eq!(actions(Command::Headers), vec![Action::Headers]);
}

#[test]
fn partition_fits_the_image() {
    assert_eq!(end_sector(), 131038);
    assert!((PART_START + PART_SECTORS + 33) * 512 <= 64 * 1024 * 1024);
}
