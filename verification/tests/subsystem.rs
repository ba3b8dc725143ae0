use nimhddk::subsystem::{AnalogInput, AnalogOutput, DigitalOutput, StartCall};

#[test]
fn analog_output_start_runs_on_own_clock() {
    let ao = AnalogOutput(7u32);
    assert_eq!(ao.start(), StartCall { handle: 7, follower: 0 });
    assert_eq!(ao.start(), ao.start_as_follower(false));
}

#[test]
fn analog_output_follower_flag() {
    let ao = AnalogOutput(3u64);
    assert_eq!(ao.start_as_follower(true), StartCall { handle: 3, follower: 1 });
    assert_eq!(ao.start_as_follower(false), StartCall { handle: 3, follower: 0 });
}

#[test]
fn analog_input_start_stream_runs_on_own_clock() {
    let ai = AnalogInput(11i32);
    assert_eq!(ai.start_stream(), StartCall { handle: 11, follower: 0 });
    assert_eq!(ai.start_stream(), ai.start_as_follower(false));
    assert_eq!(ai.start_as_follower(true), StartCall { handle: 11, follower: 1 });
}

#[test]
fn digital_output_start_runs_on_own_clock() {
    let dout = DigitalOutput(5usize);
    assert_eq!(dout.start(), StartCall { handle: 5, follower: 0 });
    assert_eq!(dout.start(), dout.start_as_follower(false));
    assert_eq!(dout.start_as_follower(true), StartCall { handle: 5, follower: 1 });
}

#[test]
fn start_call_keeps_the_handle() {
    let a = DigitalOutput(1u8).start();
    let b = DigitalOutput(2u8).start();
    assert_ne!(a, b);
    assert_eq!(a.handle, 1);
    assert_eq!(b.handle, 2);
}
