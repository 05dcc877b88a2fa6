use aoclib::bingo::{best_board_score, calculate_board_score, get_bingo_boards, last_board_score,
    BingoBoard, BingoEntry};
use aoclib::bitops::{bitstr_to_num, bitstr_to_vec, bitvec_to_num};
use aoclib::chunks::{find_error, get_completion_score, score_completions, score_corruption,
    Bracket, Chunk, LineFix};
use aoclib::course::{parse_command, plot_aim_course, plot_course, Command};
use aoclib::diag::{do_filter, least_common_bits, most_common_bits};
use aoclib::parse::{chars_of, check_number, parse_number, split_on};
use aoclib::pool::{dispatch, drain, shutdown_messages, worker_step, DispatchAction, Message,
    Worker, WorkerAction};
use aoclib::sonar::{count_increases, count_window_increases, trisum};

#[test]
fn bits_fold_most_significant_first() {
    assert_eq!(bitvec_to_num(&[1, 0, 1, 1, 0]), 22);
    assert_eq!(bitvec_to_num(&[]), 0);
    assert_eq!(bitstr_to_vec("10110"), vec![1, 0, 1, 1, 0]);
    assert_eq!(bitstr_to_num("10110"), 22);
    assert_eq!(bitstr_to_num("1"), 1);
}

#[test]
fn splitting_keeps_empty_groups() {
    let cs = chars_of("a,b,,c");
    let groups = split_on(&cs, ',');
    assert_eq!(
        groups,
        vec![vec!['a'], vec!['b'], Vec::<char>::new(), vec!['c']]
    );
    assert!(check_number(&vec!['4', '2']));
    assert!(!check_number(&Vec::new()));
    assert!(!check_number(&vec!['4', 'x']));
    assert_eq!(parse_number(&vec!['4', '2']), 42);
}

#[test]
fn zero_workers_run_inline() {
    assert_eq!(dispatch(0, 7), DispatchAction::RunInline(7));
    assert_eq!(dispatch(3, 9), DispatchAction::Enqueue(Message::NewJob(9)));
}

#[test]
fn workers_exit_only_on_terminate() {
    assert_eq!(worker_step(Message::NewJob(5)), WorkerAction::Run(5));
    assert_eq!(worker_step(Message::Terminate), WorkerAction::Exit);
}

#[test]
fn one_terminate_per_worker() {
    let msgs = shutdown_messages(3);
    assert_eq!(msgs, vec![Message::Terminate, Message::Terminate, Message::Terminate]);
    assert_eq!(shutdown_messages(0), Vec::<Message>::new());
}

#[test]
fn handle_is_taken_exactly_once() {
    let mut w = Worker::new(3);
    assert_eq!(w.id, 3);
    assert!(w.handle_present);
    assert!(w.take_handle());
    assert!(!w.take_handle());
    assert!(!w.handle_present);
}

#[test]
fn queue_runs_every_job_once_before_shutdown() {
    let mut queue: Vec<Message> = Vec::new();
    for id in 0..10u64 {
        queue.push(Message::NewJob(id));
    }
    queue.push(Message::Terminate);
    queue.push(Message::Terminate);
    let (executed, exits) = drain(&queue);
    assert_eq!(executed, vec![0, 1, 2, 3, 4, 5, 6, 7, 8, 9]);
    assert_eq!(exits, 2);
}

#[test]
fn interleaved_queue_drains_in_order() {
    let queue = vec![
        Message::NewJob(1),
        Message::Terminate,
        Message::NewJob(2),
        Message::Terminate,
    ];
    let (executed, exits) = drain(&queue);
    assert_eq!(executed, vec![1, 2]);
    assert_eq!(exits, 2);
}

#[test]
fn corrupted_line_scores_its_close() {
    match find_error("(]") {
        LineFix::Corrupted(c) => {
            assert_eq!(c, Chunk::Close(Bracket::Square));
            assert_eq!(score_corruption(&c), 57);
        },
        LineFix::Incomplete(_) => panic!(),
    }
    assert_eq!(score_corruption(&Chunk::Close(Bracket::Round)), 3);
    assert_eq!(score_corruption(&Chunk::Close(Bracket::Curly)), 1197);
    assert_eq!(score_corruption(&Chunk::Close(Bracket::Angular)), 25137);
    assert_eq!(score_corruption(&Chunk::Open(Bracket::Round)), 0);
}

#[test]
fn incomplete_line_keeps_its_stack() {
    match find_error("[({") {
        LineFix::Incomplete(stack) => {
            assert_eq!(stack, vec![Bracket::Square, Bracket::Round, Bracket::Curly]);
            assert_eq!(get_completion_score(&stack), 82);
        },
        LineFix::Corrupted(_) => panic!(),
    }
}

#[test]
fn completion_scores_take_the_middle() {
    let fixes = vec![find_error("[({"), find_error("("), find_error("{")];
    assert_eq!(score_completions(&fixes), 3);
}

#[test]
fn matched_line_is_empty_incomplete() {
    match find_error("([]<>)") {
        LineFix::Incomplete(stack) => assert_eq!(stack, Vec::<Bracket>::new()),
        LineFix::Corrupted(_) => panic!(),
    }
}

#[test]
fn filtering_keeps_majority_bits() {
    assert_eq!(do_filter(&[2, 1, 3], 1, true), vec![3]);
    assert_eq!(do_filter(&[2, 1, 3], 1, false), vec![1]);
    assert_eq!(do_filter(&[5], 2, true), vec![5]);
}

#[test]
fn common_bit_vectors() {
    assert_eq!(most_common_bits(&vec![5, 1, 0], 6), vec![1, 0, 0]);
    assert_eq!(least_common_bits(&vec![5, 1, 0], 6), vec![0, 1, 1]);
}

#[test]
fn depth_increases() {
    let v = vec![199, 200, 208, 210, 200, 207, 240, 269, 260, 263];
    assert_eq!(count_increases(&v), 7);
    assert_eq!(count_window_increases(&v), 5);
    assert_eq!(trisum(&v, 0), 199 + 200 + 208);
}

#[test]
fn commands_steer_the_course() {
    assert_eq!(parse_command("forward 5"), Command::Forward(5));
    assert_eq!(parse_command("down 3"), Command::Down(3));
    assert_eq!(parse_command("up 12"), Command::Up(12));
    let cmds = vec![
        Command::Forward(5),
        Command::Down(5),
        Command::Forward(8),
        Command::Up(3),
        Command::Down(8),
        Command::Forward(2),
    ];
    assert_eq!(plot_course(&cmds), (15, 10));
    assert_eq!(plot_aim_course(&cmds), (15, 60));
}

fn board(vals: Vec<u32>) -> BingoBoard {
    let mut cells: Vec<BingoEntry> = Vec::new();
    for v in vals {
        cells.push(BingoEntry { value: v, matched: false });
    }
    BingoBoard { board: cells, score: 0, winturn: 0 }
}

#[test]
fn board_wins_on_its_row() {
    let draws = vec![1, 2, 3, 4];
    let mut b = board(vec![1, 2, 3, 4]);
    let r = calculate_board_score(&draws, &mut b);
    assert_eq!(r, Ok((2, 14)));
    assert_eq!(b.winturn, 2);
    assert_eq!(b.score, 14);
}

#[test]
fn board_without_win_is_an_error() {
    let draws = vec![9];
    let mut b = board(vec![1, 2, 3, 4]);
    let r = calculate_board_score(&draws, &mut b);
    assert!(r.is_err());
}

#[test]
fn earliest_and_latest_winners() {
    let draws = vec![1, 2, 3, 4];
    let a = board(vec![1, 2, 3, 4]);
    let b = board(vec![1, 4, 3, 2]);
    assert_eq!(best_board_score(&draws, vec![a, b]), 14);
    let a2 = board(vec![1, 2, 3, 4]);
    let b2 = board(vec![1, 4, 3, 2]);
    assert_eq!(last_board_score(&draws, vec![a2, b2]), 12);
}

#[test]
fn boards_parse_from_lines() {
    let lines = vec![
        "1,2,3,4".to_string(),
        "".to_string(),
        "1 2".to_string(),
        "3 4".to_string(),
        "".to_string(),
        "1 4".to_string(),
        "3 2".to_string(),
        "".to_string(),
    ];
    let (draws, boards) = get_bingo_boards(&lines);
    assert_eq!(draws, vec![1, 2, 3, 4]);
    assert_eq!(boards.len(), 2);
    assert_eq!(boards[0].board.len(), 4);
    assert_eq!(boards[0].board[0], BingoEntry { value: 1, matched: false });
    assert_eq!(boards[1].board[1], BingoEntry { value: 4, matched: false });
    assert_eq!(best_board_score(&draws, boards), 14);
}
