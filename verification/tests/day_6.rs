use aoc::days::day_6::SignalProcessor;

#[test]
fn test_process_signal_packet_1() {
    let signal_processor = SignalProcessor::new(String::from("mjqjpqmgbljsphdztnvjfqwrcgsmlb"), 4);
    assert_eq!(signal_processor.get_marker(), 7);
}

#[test]
fn test_process_signal_packet_2() {
    let signal_processor = SignalProcessor::new(String::from("bvwbjplbgvbhsrlpgdmjqwftvncz"), 4);
    assert_eq!(signal_processor.get_marker(), 5);
}

#[test]
fn test_process_signal_packet_3() {
    let signal_processor = SignalProcessor::new(String::from("nppdvjthqldpwncqszvftbrmjlhg"), 4);
    assert_eq!(signal_processor.get_marker(), 6);
}

#[test]
fn test_process_signal_packet_4() {
    let signal_processor = SignalProcessor::new(String::from("nznrnfrfntjfmvfwmzdfjlvtqnbhcprsg"), 4);
    assert_eq!(signal_processor.get_marker(), 10);
}

#[test]
fn test_process_signal_packet_5() {
    let signal_processor = SignalProcessor::new(String::from("zcfzfwzzqfrljwzlrfnpqdbhtmscgvjw"), 4);
    assert_eq!(signal_processor.get_marker(), 11);
}

#[test]
fn test_process_signal_message_1() {
    let signal_processor = SignalProcessor::new(String::from("mjqjpqmgbljsphdztnvjfqwrcgsmlb"), 14);
    assert_eq!(signal_processor.get_marker(), 19);
}

#[test]
fn test_process_signal_message_2() {
    let signal_processor = SignalProcessor::new(String::from("bvwbjplbgvbhsrlpgdmjqwftvncz"), 14);
    assert_eq!(signal_processor.get_marker(), 23);
}

#[test]
fn test_process_signal_message_3() {
    let signal_processor = SignalProcessor::new(String::from("nppdvjthqldpwncqszvftbrmjlhg"), 14);
    assert_eq!(signal_processor.get_marker(), 23);
}

#[test]
fn test_process_signal_message_4() {
    let signal_processor = SignalProcessor::new(String::from("nznrnfrfntjfmvfwmzdfjlvtqnbhcprsg"), 14);
    assert_eq!(signal_processor.get_marker(), 29);
}

#[test]
fn test_process_signal_message_5() {
    let signal_processor = SignalProcessor::new(String::from("zcfzfwzzqfrljwzlrfnpqdbhtmscgvjw"), 14);
    assert_eq!(signal_processor.get_marker(), 26);
}
