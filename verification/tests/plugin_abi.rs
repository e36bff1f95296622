use engine::plugin_abi::{ActionError, Bit, Component, ReadoutError, Signal, Value};

struct AndGate;

impl Component for AndGate {
    fn init(&mut self) {}
    fn input_count(&self) -> usize {
        2
    }
    fn output_count(&self) -> usize {
        1
    }
    fn eval(&mut self, inputs: &[Signal]) -> Vec<Signal> {
        let bit = |s: &Signal| s.first().copied().unwrap_or(Bit::Unknown);
        vec![vec![bit(&inputs[0]).and(bit(&inputs[1]))]]
    }
    fn serialize_state(&self) -> Vec<u8> {
        Vec::new()
    }
    fn deserialize_state(&mut self, _state: &[u8]) {}
}

#[test]
fn bit_matches_logisim_value_semantics() {
    assert_eq!(Bit::Zero.and(Bit::Unknown), Bit::Zero);
    assert_eq!(Bit::Zero.and(Bit::Error), Bit::Zero);
    assert_eq!(Bit::One.and(Bit::One), Bit::One);
    assert_eq!(Bit::One.and(Bit::Unknown), Bit::Error);
    assert_eq!(Bit::Unknown.and(Bit::Unknown), Bit::Error);

    assert_eq!(Bit::One.or(Bit::Unknown), Bit::One);
    assert_eq!(Bit::One.or(Bit::Error), Bit::One);
    assert_eq!(Bit::Zero.or(Bit::Zero), Bit::Zero);
    assert_eq!(Bit::Zero.or(Bit::Unknown), Bit::Error);

    assert_eq!(Bit::One.not(), Bit::Zero);
    assert_eq!(Bit::Zero.not(), Bit::One);
    assert_eq!(Bit::Unknown.not(), Bit::Error);
    assert_eq!(Bit::Error.not(), Bit::Error);

    assert_eq!(Bit::Unknown.combine(Bit::One), Bit::One);
    assert_eq!(Bit::One.combine(Bit::Unknown), Bit::One);
    assert_eq!(Bit::One.combine(Bit::One), Bit::One);
    assert_eq!(Bit::One.combine(Bit::Zero), Bit::Error);
    assert_eq!(Bit::Unknown.combine(Bit::Unknown), Bit::Unknown);
}

#[test]
fn and_gate_evaluates_without_actions() {
    let mut gate = AndGate;
    gate.init();
    let out = gate.eval(&[vec![Bit::One], vec![Bit::One]]);
    assert_eq!(out, vec![vec![Bit::One]]);
    assert!(gate.actions().is_empty());
    assert!(gate.readouts().is_empty());
    assert_eq!(
        gate.invoke("on", None),
        Err(ActionError::UnknownAction("on".to_string()))
    );
}

struct Switch {
    on: bool,
}

impl Component for Switch {
    fn init(&mut self) {
        self.on = false;
    }
    fn input_count(&self) -> usize {
        0
    }
    fn output_count(&self) -> usize {
        1
    }
    fn eval(&mut self, _inputs: &[Signal]) -> Vec<Signal> {
        vec![vec![if self.on { Bit::One } else { Bit::Zero }]]
    }
    fn serialize_state(&self) -> Vec<u8> {
        vec![self.on as u8]
    }
    fn deserialize_state(&mut self, state: &[u8]) {
        self.on = state.first().copied().unwrap_or(0) != 0;
    }

    fn actions(&self) -> Vec<&'static str> {
        vec!["on", "off", "toggle"]
    }
    fn invoke(&mut self, name: &str, _arg: Option<Value>) -> Result<(), ActionError> {
        match name {
            "on" => {
                self.on = true;
                Ok(())
            }
            "off" => {
                self.on = false;
                Ok(())
            }
            "toggle" => {
                self.on = !self.on;
                Ok(())
            }
            other => Err(ActionError::UnknownAction(other.to_string())),
        }
    }

    fn readouts(&self) -> Vec<&'static str> {
        vec!["get"]
    }
    fn read(&self, name: &str) -> Result<Value, ReadoutError> {
        match name {
            "get" => Ok(Value::Bool(self.on)),
            other => Err(ReadoutError::UnknownReadout(other.to_string())),
        }
    }
}

#[test]
fn switch_toggles_via_actions_and_reads_via_readouts() {
    let mut sw = Switch { on: false };
    sw.init();
    assert_eq!(sw.read("get"), Ok(Value::Bool(false)));

    sw.invoke("on", None).unwrap();
    assert_eq!(sw.read("get"), Ok(Value::Bool(true)));
    assert_eq!(sw.eval(&[]), vec![vec![Bit::One]]);

    sw.invoke("toggle", None).unwrap();
    assert_eq!(sw.read("get"), Ok(Value::Bool(false)));

    assert_eq!(
        sw.read("nonexistent"),
        Err(ReadoutError::UnknownReadout("nonexistent".to_string()))
    );
}

#[test]
fn state_round_trips() {
    let sw = Switch { on: true };
    let state = sw.serialize_state();
    let mut restored = Switch { on: false };
    restored.deserialize_state(&state);
    assert_eq!(restored.read("get"), Ok(Value::Bool(true)));
}
