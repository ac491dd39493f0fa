//! What the build tool does for each of its commands.

use vstd::prelude::*;

verus! {

/// The first sector of the partition on the disk image.
pub const PART_START: u64 = 2048;

/// The number of sectors of that partition.
pub const PART_SECTORS: u64 = 128991;

/// What the build tool is asked to do.
#[derive(Debug, Clone, Copy, PartialEq, Eq, Structural)]
pub enum Command {
    /// Builds parts of the system. `package` tells whether a package was
    /// named.
    Build { kernel: bool, userland: bool, ports: bool, package: bool },
    Headers,
    Ports,
    UpdateDisk,
    Iso,
    Prep,
    Run,
    Clean,
}

#[derive(Debug, Clone, Copy, PartialEq, Eq, Structural)]
pub enum Action {
    KernelAssembly,
    Kernel,
    Headers,
    Ports,
    /// All packages of the userland.
    Userland,
    /// The package that was named.
    Package,
    StageDisk,
    UpdateDisk,
    Iso,
    Run,
    Clean,
}

/// A step of a command. If a step that counts fails, the command fails with it
/// and no further step is taken.
#[derive(Debug, Clone, Copy, PartialEq, Eq, Structural)]
pub struct Step {
    pub action: Action,
    pub counts: bool,
}

pub open spec fn step(action: Action) -> Step {
    Step { action, counts: true }
}

/// A step whose outcome is not looked at.
pub open spec fn last_step(action: Action) -> Step {
    Step { action, counts: false }
}

/// The steps of a build. Without any choice the kernel and the userland are
/// built; a package by itself is built only where the userland is not built as
/// a whole.
pub open spec fn build_steps(kernel: bool, userland: bool, ports: bool, package: bool) -> Seq<Step> {
    let all = !kernel && !userland && !ports && !package;
    (if all || kernel {
        seq![step(Action::KernelAssembly), step(Action::Kernel)]
    } else {
        Seq::empty()
    }) + (if ports {
        seq![step(Action::Headers), step(Action::Ports)]
    } else {
        Seq::empty()
    }) + (if all || userland {
        seq![step(Action::Userland)]
    } else if package {
        seq![step(Action::Package)]
    } else {
        Seq::empty()
    })
}

/// The steps of a command.
pub open spec fn steps_of(command: Command) -> Seq<Step> {
    match command {
        Command::Build { kernel, userland, ports, package } => build_steps(
            kernel,
            userland,
            ports,
            package,
        ),
        Command::Headers => seq![last_step(Action::Headers)],
        Command::Ports => seq![step(Action::Headers), last_step(Action::Ports)],
        Command::UpdateDisk => seq![
            step(Action::Userland),
            step(Action::StageDisk),
            last_step(Action::UpdateDisk),
        ],
        Command::Iso => seq![
            step(Action::KernelAssembly),
            step(Action::Kernel),
            last_step(Action::Iso),
        ],
        Command::Prep => seq![
            step(Action::KernelAssembly),
            step(Action::Kernel),
            step(Action::Userland),
            step(Action::StageDisk),
            step(Action::UpdateDisk),
            step(Action::Iso),
        ],
        Command::Run => seq![last_step(Action::Run)],
        Command::Clean => seq![last_step(Action::Clean)],
    }
}

fn add_step(steps: &mut Vec<Step>, action: Action)
    ensures
        final(steps)@ == old(steps)@.push(step(action)),
{
    steps.push(Step { action, counts: true });
}

fn add_last_step(steps: &mut Vec<Step>, action: Action)
    ensures
        final(steps)@ == old(steps)@.push(last_step(action)),
{
    steps.push(Step { action, counts: false });
}

/// The steps of a command, in order.
pub fn plan(command: Command) -> (r: Vec<Step>)
    ensures
        r@ == steps_of(command),
{
    let mut steps: Vec<Step> = Vec::new();
    match command {
        Command::Build { kernel, userland, ports, package } => {
            let build_all = !kernel && !userland && !ports && !package;
            if build_all || kernel {
                add_step(&mut steps, Action::KernelAssembly);
                add_step(&mut steps, Action::Kernel);
            }
            if ports {
                add_step(&mut steps, Action::Headers);
                add_step(&mut steps, Action::Ports);
            }
            if build_all || userland {
                add_step(&mut steps, Action::Userland);
            } else if package {
                add_step(&mut steps, Action::Package);
            }
        },
        Command::Headers => {
            add_last_step(&mut steps, Action::Headers);
        },
        Command::Ports => {
            add_step(&mut steps, Action::Headers);
            add_last_step(&mut steps, Action::Ports);
        },
        Command::UpdateDisk => {
            add_step(&mut steps, Action::Userland);
            add_step(&mut steps, Action::StageDisk);
            add_last_step(&mut steps, Action::UpdateDisk);
        },
        Command::Iso => {
            add_step(&mut steps, Action::KernelAssembly);
            add_step(&mut steps, Action::Kernel);
            add_last_step(&mut steps, Action::Iso);
        },
        Command::Prep => {
            add_step(&mut steps, Action::KernelAssembly);
            add_step(&mut steps, Action::Kernel);
            add_step(&mut steps, Action::Userland);
            add_step(&mut steps, Action::StageDisk);
            add_step(&mut steps, Action::UpdateDisk);
            add_step(&mut steps, Action::Iso);
        },
        Command::Run => {
            add_last_step(&mut steps, Action::Run);
        },
        Command::Clean => {
            add_last_step(&mut steps, Action::Clean);
        },
    }
    assert(steps@ =~= steps_of(command));
    steps
}

/// The last sector of the partition.
pub fn end_sector() -> (r: u64)
    ensures
        r == PART_START + PART_SECTORS - 1,
{
    PART_START + PART_SECTORS - 1
}

/// A command without any choice builds everything that a build of the kernel
/// and the userland does.
pub proof fn law_default_builds_all()
    ensures
        build_steps(false, false, false, false) == build_steps(true, true, false, false),
{
    assert(build_steps(false, false, false, false) =~= build_steps(true, true, false, false));
}

/// An action is among some steps.
pub open spec fn takes(steps: Seq<Step>, action: Action) -> bool {
    exists|i: int| 0 <= i < steps.len() && (#[trigger] steps[i]).action == action
}

/// The steps before step `i` have an action among them.
pub open spec fn before(steps: Seq<Step>, i: int, action: Action) -> bool {
    exists|j: int| 0 <= j < i && (#[trigger] steps[j]).action == action
}

/// What a step needs is done before it: the kernel is linked with what has been
/// assembled, a port is built with the headers that have been installed, the
/// disk is updated from what has been staged, which the userland has been built
/// for, and the image has the kernel on it. No step is taken after one whose
/// outcome is not looked at.
pub proof fn law_steps_build_on_each_other(command: Command, i: int)
    requires
        0 <= i < steps_of(command).len(),
    ensures
        ({
            let steps = steps_of(command);
            &&& steps[i].action == Action::Kernel ==> before(steps, i, Action::KernelAssembly)
            &&& steps[i].action == Action::Ports ==> before(steps, i, Action::Headers)
            &&& steps[i].action == Action::StageDisk ==> before(steps, i, Action::Userland)
            &&& steps[i].action == Action::UpdateDisk ==> before(steps, i, Action::StageDisk)
            &&& steps[i].action == Action::Iso ==> before(steps, i, Action::Kernel)
            &&& i < steps.len() - 1 ==> steps[i].counts
        }),
{
    let steps = steps_of(command);
    assert(i > 0 ==> 0 <= i - 1 < steps.len());
    if i > 0 {
        let last = steps[i - 1];
        assert(before(steps, i, last.action));
        if i > 4 {
            assert(before(steps, i, steps[1].action));
        }
    }
}

/// A build takes what it was asked for and nothing else, and the kernel and the
/// userland if it was asked for nothing. Every step of it counts.
pub proof fn law_build_takes_what_is_asked(kernel: bool, userland: bool, ports: bool, package: bool)
    ensures
        ({
            let steps = steps_of(Command::Build { kernel, userland, ports, package });
            let all = !kernel && !userland && !ports && !package;
            &&& takes(steps, Action::Kernel) <==> kernel || all
            &&& takes(steps, Action::Userland) <==> userland || all
            &&& takes(steps, Action::Ports) <==> ports
            &&& takes(steps, Action::Package) <==> package && !userland
            &&& forall|i: int| 0 <= i < steps.len() ==> (#[trigger] steps[i]).counts
        }),
{
    let steps = steps_of(Command::Build { kernel, userland, ports, package });
    let all = !kernel && !userland && !ports && !package;
    let n = steps.len();
    if kernel || all {
        assert(steps[1].action == Action::Kernel);
    }
    if ports {
        let at = if kernel {
            3int
        } else {
            1
        };
        assert(steps[at].action == Action::Ports);
    }
    if userland || all {
        assert(steps[n - 1].action == Action::Userland);
    } else if package {
        assert(steps[n - 1].action == Action::Package);
    }
}

/// Each command ends in what it is for. Preparing a run updates the disk and
/// makes the image, and every step of it counts.
pub proof fn law_commands_do_what_they_say(i: int)
    ensures
        steps_of(Command::Headers).last().action == Action::Headers,
        steps_of(Command::Ports).last().action == Action::Ports,
        steps_of(Command::UpdateDisk).last().action == Action::UpdateDisk,
        steps_of(Command::Iso).last().action == Action::Iso,
        steps_of(Command::Run).last().action == Action::Run,
        steps_of(Command::Clean).last().action == Action::Clean,
        takes(steps_of(Command::Prep), Action::UpdateDisk),
        takes(steps_of(Command::Prep), Action::Iso),
        0 <= i < steps_of(Command::Prep).len() ==> steps_of(Command::Prep)[i].counts,
{
    assert(steps_of(Command::Prep)[4].action == Action::UpdateDisk);
    assert(steps_of(Command::Prep)[5].action == Action::Iso);
}

} // verus!
