use portkill::parse::parse_lsof_output;

#[test]
fn test_parse_lsof_output_with_valid_data() {
    let output = "COMMAND   PID   USER   FD   TYPE DEVICE SIZE/OFF NODE NAME\nnode      1234  john   21u  IPv4  0x123   0t0  TCP *:3000 (LISTEN)\nPython    5678  jane   3u   IPv6  0x456   0t0  TCP *:4200 (LISTEN)";

    let processes = parse_lsof_output(output);

    assert_eq!(processes.len(), 2);
    assert_eq!(processes[0].command, "node");
    assert_eq!(processes[0].pid, "1234");
    assert_eq!(processes[0].user, "john");
    assert_eq!(processes[1].command, "Python");
    assert_eq!(processes[1].pid, "5678");
    assert_eq!(processes[1].user, "jane");
}

#[test]
fn test_parse_lsof_output_with_empty_string() {
    let output = "";
    let processes = parse_lsof_output(output);
    assert_eq!(processes.len(), 0);
}

#[test]
fn test_parse_lsof_output_with_only_header() {
    let output = "COMMAND   PID   USER   FD   TYPE DEVICE SIZE/OFF NODE NAME";
    let processes = parse_lsof_output(output);
    assert_eq!(processes.len(), 0);
}

#[test]
fn test_parse_lsof_output_with_malformed_line() {
    let output = "COMMAND   PID   USER\nnode      1234\ninvalid";
    let processes = parse_lsof_output(output);
    // Lines with less than 3 columns should be skipped
    assert_eq!(processes.len(), 0);
}

#[test]
fn test_parse_lsof_output_with_whitespace_variations() {
    let output =
        "COMMAND   PID   USER\nnode      1234  john   extra data here\npython    5678  jane";
    let processes = parse_lsof_output(output);
    assert_eq!(processes.len(), 2);
    assert_eq!(processes[0].command, "node");
    assert_eq!(processes[0].pid, "1234");
    assert_eq!(processes[0].user, "john");
}

#[test]
fn test_parse_lsof_output_with_tabs_and_carriage_returns() {
    let output = "COMMAND\tPID\tUSER\r\nnode\t1234\tjohn\r\npython\t5678\tjane";
    let processes = parse_lsof_output(output);
    assert_eq!(processes.len(), 2);
    assert_eq!(processes[0].command, "node");
    assert_eq!(processes[0].pid, "1234");
    assert_eq!(processes[0].user, "john");
    assert_eq!(processes[1].command, "python");
    assert_eq!(processes[1].pid, "5678");
    assert_eq!(processes[1].user, "jane");
}

#[test]
fn test_parse_lsof_output_malformed_among_well_formed() {
    let output = "COMMAND PID USER\nnode 1234 john\nshort 1\npython 5678 jane";
    let processes = parse_lsof_output(output);
    assert_eq!(processes.len(), 2);
    assert_eq!(processes[0].command, "node");
    assert_eq!(processes[1].command, "python");
    assert_eq!(processes[1].pid, "5678");
    assert_eq!(processes[1].user, "jane");
}

#[test]
fn test_parse_lsof_output_with_leading_whitespace_line() {
    let output = "COMMAND PID USER\n   node   1234   john   ";
    let processes = parse_lsof_output(output);
    assert_eq!(processes.len(), 1);
    assert_eq!(processes[0].command, "node");
    assert_eq!(processes[0].pid, "1234");
    assert_eq!(processes[0].user, "john");
}

#[test]
fn test_parse_lsof_output_single_data_line_extra_columns() {
    let output = "HEADER\nnode 1234 john 21u IPv4";
    let processes = parse_lsof_output(output);
    assert_eq!(processes.len(), 1);
    assert_eq!(processes[0].command, "node");
    assert_eq!(processes[0].pid, "1234");
    assert_eq!(processes[0].user, "john");
}

#[test]
fn test_parse_lsof_output_blank_lines_skipped() {
    let output = "COMMAND PID USER\n\nnode 1234 john\n\n";
    let processes = parse_lsof_output(output);
    assert_eq!(processes.len(), 1);
    assert_eq!(processes[0].pid, "1234");
}
