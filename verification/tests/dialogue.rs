use duplex_talk::dialogue::{
    answer, other_of, recognize, speaker, text_of, Listener, Phrase, Reaction, Sayer, Speaker,
    LISTENTOTAL, SAYTOTAL,
};
use duplex_talk::message::RequestResponse;

const ALL: [Phrase; 6] = [Phrase::Z0, Phrase::L1, Phrase::L2, Phrase::Z3, Phrase::L4, Phrase::Z5];

fn msg(serial: u32, text: &str) -> RequestResponse {
    RequestResponse { serial, payload: text.to_string() }
}

#[test]
fn phrase_texts() {
    assert_eq!(text_of(Phrase::Z0), "吃了没，您吶?");
    assert_eq!(text_of(Phrase::L1), "刚吃。");
    assert_eq!(text_of(Phrase::L2), "您这，嘛去？");
    assert_eq!(text_of(Phrase::Z3), "嗨！吃饱了溜溜弯儿。");
    assert_eq!(text_of(Phrase::L4), "有空家里坐坐啊。");
    assert_eq!(text_of(Phrase::Z5), "回头去给老太太请安！");
}

#[test]
fn recognize_every_phrase_and_nothing_else() {
    for p in ALL {
        assert_eq!(recognize(&text_of(p).to_string()), Some(p));
    }
    assert_eq!(recognize(&"你好".to_string()), None);
    assert_eq!(recognize(&String::new()), None);
}

#[test]
fn who_says_what_and_answers() {
    assert_eq!(speaker(Phrase::Z0), Speaker::Zhang);
    assert_eq!(speaker(Phrase::L4), Speaker::Li);
    assert_eq!(other_of(Speaker::Zhang), Speaker::Li);
    assert_eq!(answer(Speaker::Zhang, Phrase::L2), Some(Phrase::Z3));
    assert_eq!(answer(Speaker::Zhang, Phrase::L4), Some(Phrase::Z5));
    assert_eq!(answer(Speaker::Zhang, Phrase::L1), None);
    assert_eq!(answer(Speaker::Li, Phrase::Z0), Some(Phrase::L1));
    assert_eq!(answer(Speaker::Li, Phrase::Z3), None);
    assert_eq!(answer(Speaker::Li, Phrase::Z5), None);
}

#[test]
fn zhang_listens() {
    let mut l = Listener::new(Speaker::Zhang, 10);
    match l.hear(&msg(5, "您这，嘛去？")) {
        Reaction::Reply(r) => {
            assert_eq!(r.serial, 5);
            assert_eq!(r.payload, "嗨！吃饱了溜溜弯儿。");
        }
        _ => panic!("expected a reply"),
    }
    match l.hear(&msg(6, "有空家里坐坐啊。")) {
        Reaction::Reply(r) => {
            assert_eq!(r.serial, 6);
            assert_eq!(r.payload, "回头去给老太太请安！");
        }
        _ => panic!("expected a reply"),
    }
    assert!(matches!(l.hear(&msg(7, "刚吃。")), Reaction::Silent));
    assert_eq!(l.heard, 3);
    assert!(matches!(l.hear(&msg(8, "吃了没，您吶?")), Reaction::Puzzled));
    assert!(matches!(l.hear(&msg(9, "什么")), Reaction::Puzzled));
    assert_eq!(l.heard, 3);
}

#[test]
fn li_listens() {
    let mut l = Listener::new(Speaker::Li, 2);
    match l.hear(&msg(0, "吃了没，您吶?")) {
        Reaction::Reply(r) => {
            assert_eq!(r.serial, 0);
            assert_eq!(r.payload, "刚吃。");
        }
        _ => panic!("expected a reply"),
    }
    assert!(!l.done());
    assert!(matches!(l.hear(&msg(1, "回头去给老太太请安！")), Reaction::Silent));
    assert!(l.done());
}

#[test]
fn sayers_number_their_lines() {
    let mut z = Sayer::new(Speaker::Zhang, 2);
    let first = z.next_round();
    assert_eq!(first.len(), 1);
    assert_eq!(first[0].serial, 0);
    assert_eq!(first[0].payload, "吃了没，您吶?");
    assert_eq!(z.next_round()[0].serial, 1);
    assert!(z.next_round().is_empty());
    assert_eq!(z.next_serial, 2);

    let mut li = Sayer::new(Speaker::Li, 1);
    let round = li.next_round();
    assert_eq!(round.len(), 2);
    assert_eq!((round[0].serial, round[0].payload.as_str()), (0, "您这，嘛去？"));
    assert_eq!((round[1].serial, round[1].payload.as_str()), (1, "有空家里坐坐啊。"));
    assert!(li.next_round().is_empty());
    assert_eq!(li.rounds_left, 0);
}

#[test]
fn listen_total_is_three_lines_per_round() {
    assert_eq!(LISTENTOTAL, 3 * SAYTOTAL);
}

#[test]
fn a_short_conversation_ends_with_everything_heard() {
    let rounds = 4;
    let mut zhang_says = Sayer::new(Speaker::Zhang, rounds);
    let mut li_says = Sayer::new(Speaker::Li, rounds);
    let mut zhang_hears = Listener::new(Speaker::Zhang, 3 * rounds);
    let mut li_hears = Listener::new(Speaker::Li, 3 * rounds);
    let mut to_zhang: Vec<RequestResponse> = Vec::new();
    let mut to_li: Vec<RequestResponse> = Vec::new();
    for _ in 0..rounds {
        to_li.extend(zhang_says.next_round());
        to_zhang.extend(li_says.next_round());
    }
    while !to_zhang.is_empty() || !to_li.is_empty() {
        if let Some(m) = to_zhang.pop() {
            match zhang_hears.hear(&m) {
                Reaction::Reply(r) => to_li.push(r),
                Reaction::Silent => {}
                Reaction::Puzzled => panic!("zhang puzzled"),
            }
        }
        if let Some(m) = to_li.pop() {
            match li_hears.hear(&m) {
                Reaction::Reply(r) => to_zhang.push(r),
                Reaction::Silent => {}
                Reaction::Puzzled => panic!("li puzzled"),
            }
        }
    }
    assert!(zhang_hears.done());
    assert!(li_hears.done());
    assert_eq!(zhang_hears.heard, 3 * rounds);
    assert_eq!(li_hears.heard, 3 * rounds);
}
