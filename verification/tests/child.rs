use unix_shell::eval::{Input, Output};
use unix_shell::run::{child_actions, FdAction};

#[test]
fn inherited_channels_need_no_action() {
    let acts = child_actions(&Input::Stdin, &Output::Stdout);
    assert_eq!(acts, vec![]);
}

#[test]
fn file_channels_open_output_first() {
    let acts = child_actions(
        &Input::File(String::from("in.txt")),
        &Output::File(String::from("out.txt")),
    );
    assert_eq!(
        acts,
        vec![
            FdAction::OpenOutput(String::from("out.txt")),
            FdAction::OpenInput(String::from("in.txt")),
        ]
    );
}

#[test]
fn a_pipe_writer_first_closes_the_read_end() {
    let acts = child_actions(&Input::Stdin, &Output::Pipefile((3, 4)));
    assert_eq!(
        acts,
        vec![FdAction::Close(3), FdAction::DupToStdout(4)]
    );
}

#[test]
fn a_pipe_reader_duplicates_the_read_end() {
    let acts = child_actions(&Input::Pipefile((5, 6)), &Output::Stdout);
    assert_eq!(acts, vec![FdAction::DupToStdin(5)]);
}

#[test]
fn a_middle_stage_wires_both_sides() {
    let acts = child_actions(&Input::Pipefile((5, 6)), &Output::Pipefile((7, 8)));
    assert_eq!(
        acts,
        vec![
            FdAction::Close(7),
            FdAction::DupToStdout(8),
            FdAction::DupToStdin(5),
        ]
    );
}
