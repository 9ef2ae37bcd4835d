use vstd::prelude::*;

verus! {

/// A relative knob: how far it was turned.
#[derive(Debug, Clone, Copy, PartialEq, Eq, Structural)]
pub struct CueKnob {
    pub delta: i8,
}

#[derive(Debug, Clone, Copy, PartialEq, Eq, Structural)]
pub enum ButtonType {
    Grid(u8, u8),
    Side(u8),
    Indicator(u8),
    Track(u8),
    Activator(u8),
    Solo(u8),
    Arm(u8),
    Shift,
    Quantization,
    Play,
    Stop,
    Up,
    Down,
    Right,
    Left,
    Master(u8),
    Unknown,
}

#[derive(Debug, Clone, Copy, PartialEq, Eq, Structural)]
pub enum FaderType {
    Track(u8),
    Velocity,
    CrossFade,
    Master,
}

#[derive(Debug, Clone, Copy, PartialEq, Eq, Structural)]
pub enum KnobType {
    Effect(u8),
    Move(u8),
}

#[derive(Debug, Clone, Copy, PartialEq, Eq, Structural)]
pub enum InputEventType {
    InquiryResponse(u8, u8),
    ButtonPressed(ButtonType),
    ButtonReleased(ButtonType),
    KnobTurned { value: u8, knob_type: KnobType },
    DeltaKnobTurned { delta: i8, knob_type: KnobType },
    FaderMoved { value: u8, fader_type: FaderType },
    Unknown,
}

/// A decoded controller message and the frame it came at.
#[derive(Debug, Clone, Copy, PartialEq, Eq, Structural)]
pub struct InputEvent {
    pub time: u32,
    pub event_type: InputEventType,
}

/// The two controller models this decodes.
#[derive(Debug, Clone, Copy, PartialEq, Eq, Structural)]
pub enum ControllerInput {
    APC40,
    APC20,
}

/// The button that note `note` on channel `channel` stands for on controller `c`.
pub open spec fn button_of(c: ControllerInput, channel: u8, note: u8) -> ButtonType {
    if note == 0x5B {
        ButtonType::Play
    } else if note == 0x5C {
        ButtonType::Stop
    } else if note == 0x33 {
        ButtonType::Track(channel)
    } else if note == 0x3F {
        ButtonType::Quantization
    } else if 0x52 <= note <= 0x56 {
        ButtonType::Side((4 - (note - 0x52)) as u8)
    } else if note == 0x51 || note == 0x62 {
        ButtonType::Shift
    } else if note == 0x50 {
        ButtonType::Master(
            if c == ControllerInput::APC20 {
                0
            } else {
                1
            },
        )
    } else if 0x35 <= note <= 0x39 {
        ButtonType::Grid(channel, (4 - (note - 0x35)) as u8)
    } else if note == 0x5E {
        ButtonType::Up
    } else if note == 0x5F {
        ButtonType::Down
    } else if note == 0x60 {
        ButtonType::Right
    } else if note == 0x61 {
        ButtonType::Left
    } else if note == 0x30 {
        ButtonType::Arm(channel)
    } else if note == 0x31 {
        ButtonType::Solo(channel)
    } else if note == 0x32 {
        ButtonType::Activator(channel)
    } else {
        ButtonType::Unknown
    }
}

/// Turn of the relative knob from its raw value: the byte's bits rotated left by one,
/// read as a signed byte and halved toward zero.
pub open spec fn cue_delta(value: u8) -> i8 {
    if value < 64 {
        value as i8
    } else if value < 192 {
        (value - 128) as i8
    } else {
        (value - 255) as i8
    }
}

/// What the control change `bytes` means on controller `c`.
pub open spec fn control_of(c: ControllerInput, bytes: Seq<u8>, offset_x: u8) -> InputEventType {
    let number = bytes[1];
    if 0x30 <= number <= 0x37 {
        InputEventType::KnobTurned { value: bytes[2], knob_type: KnobType::Effect((number - 48) as u8) }
    } else if 0x10 <= number <= 0x17 {
        InputEventType::KnobTurned { value: bytes[2], knob_type: KnobType::Effect((number - 8) as u8) }
    } else if number == 0x7 {
        InputEventType::FaderMoved {
            value: bytes[2],
            fader_type: FaderType::Track((bytes[0] - 0xB0 + offset_x) as u8),
        }
    } else if number == 0xE {
        InputEventType::FaderMoved {
            value: bytes[2],
            fader_type: if c == ControllerInput::APC20 {
                FaderType::Velocity
            } else {
                FaderType::Master
            },
        }
    } else if number == 0xF {
        InputEventType::FaderMoved { value: bytes[2], fader_type: FaderType::CrossFade }
    } else if number == 0x2F {
        InputEventType::DeltaKnobTurned {
            delta: cue_delta(bytes[2]),
            knob_type: KnobType::Move(
                if c == ControllerInput::APC20 {
                    0
                } else {
                    1
                },
            ),
        }
    } else {
        InputEventType::Unknown
    }
}

/// What the message `bytes` means on controller `c`; a message too short for its kind,
/// or a note outside MIDI's range, means nothing.
pub open spec fn event_of(c: ControllerInput, bytes: Seq<u8>, offset_x: u8, offset_y: u8) -> InputEventType {
    if bytes.len() < 3 {
        InputEventType::Unknown
    } else if bytes[0] == 0xF0 {
        if bytes.len() >= 14 && bytes[3] == 0x06 && bytes[4] == 0x02 && bytes[5] == 0x47 && (
        bytes[6] == 0x73 || bytes[6] == 0x7b) {
            InputEventType::InquiryResponse(bytes[13], bytes[6])
        } else {
            InputEventType::Unknown
        }
    } else if 0x90 <= bytes[0] <= 0x9F && bytes[1] <= 0x7F {
        InputEventType::ButtonPressed(
            button_of(c, (bytes[0] - 0x90 + offset_x) as u8, (bytes[1] + offset_y) as u8),
        )
    } else if 0x80 <= bytes[0] <= 0x8F && bytes[1] <= 0x7F {
        InputEventType::ButtonReleased(
            button_of(c, (bytes[0] - 0x80 + offset_x) as u8, (bytes[1] + offset_y) as u8),
        )
    } else if 0xB0 <= bytes[0] <= 0xB8 {
        control_of(c, bytes, offset_x)
    } else {
        InputEventType::Unknown
    }
}

impl ControllerInput {
    /// Decodes a message that came at frame `time`.
    pub fn message_to_input_event(
        &self,
        time: u32,
        bytes: &[u8],
        button_offset_x: u8,
        button_offset_y: u8,
    ) -> (r: InputEvent)
        requires
            button_offset_x <= 0xF0,
            button_offset_y <= 0x80,
        ensures
            r.time == time,
            r.event_type == event_of(*self, bytes@, button_offset_x, button_offset_y),
    {
        InputEvent {
            time,
            event_type: self.bytes_to_input_event_type(bytes, button_offset_x, button_offset_y),
        }
    }

    fn button_type(&self, channel: u8, note: u8) -> (r: ButtonType)
        ensures
            r == button_of(*self, channel, note),
    {
        match note {
            0x5B => ButtonType::Play,
            0x5C => ButtonType::Stop,
            0x33 => ButtonType::Track(channel),
            0x3F => ButtonType::Quantization,
            0x52..=0x56 => ButtonType::Side(4 - (note - 0x52)),
            0x51 => ButtonType::Shift,
            0x50 => {
                match self {
                    ControllerInput::APC20 => ButtonType::Master(0),
                    ControllerInput::APC40 => ButtonType::Master(1),
                }
            },
            0x35..=0x39 => ButtonType::Grid(channel, 4 - (note - 0x35)),
            0x5E => ButtonType::Up,
            0x5F => ButtonType::Down,
            0x60 => ButtonType::Right,
            0x61 => ButtonType::Left,
            0x62 => ButtonType::Shift,
            0x30 => ButtonType::Arm(channel),
            0x31 => ButtonType::Solo(channel),
            0x32 => ButtonType::Activator(channel),
            _ => ButtonType::Unknown,
        }
    }

    fn bytes_to_input_event_type(&self, bytes: &[u8], button_offset_x: u8, button_offset_y: u8) -> (r:
        InputEventType)
        requires
            button_offset_x <= 0xF0,
            button_offset_y <= 0x80,
        ensures
            r == event_of(*self, bytes@, button_offset_x, button_offset_y),
    {
        if bytes.len() < 3 {
            return InputEventType::Unknown;
        }
        let status = bytes[0];
        if status == 0xF0 {
            if bytes.len() >= 14 && bytes[3] == 0x06 && bytes[4] == 0x02 && bytes[5] == 0x47 && (
            bytes[6] == 0x73 || bytes[6] == 0x7b) {
                InputEventType::InquiryResponse(bytes[13], bytes[6])
            } else {
                InputEventType::Unknown
            }
        } else if 0x90 <= status && status <= 0x9F && bytes[1] <= 0x7F {
            InputEventType::ButtonPressed(
                self.button_type(status - 0x90 + button_offset_x, bytes[1] + button_offset_y),
            )
        } else if 0x80 <= status && status <= 0x8F && bytes[1] <= 0x7F {
            InputEventType::ButtonReleased(
                self.button_type(status - 0x80 + button_offset_x, bytes[1] + button_offset_y),
            )
        } else if 0xB0 <= status && status <= 0xB8 {
            self.cc_to_input_event_type(bytes, button_offset_x, button_offset_y)
        } else {
            InputEventType::Unknown
        }
    }

    fn cc_to_input_event_type(&self, bytes: &[u8], button_offset_x: u8, _offset_y: u8) -> (r:
        InputEventType)
        requires
            bytes@.len() >= 3,
            0xB0 <= bytes@[0] <= 0xB8,
            button_offset_x <= 0xF0,
        ensures
            r == control_of(*self, bytes@, button_offset_x),
    {
        let number = bytes[1];
        if 0x30 <= number && number <= 0x37 {
            InputEventType::KnobTurned { value: bytes[2], knob_type: KnobType::Effect(number - 48) }
        } else if 0x10 <= number && number <= 0x17 {
            InputEventType::KnobTurned { value: bytes[2], knob_type: KnobType::Effect(number - 8) }
        } else if number == 0x7 {
            InputEventType::FaderMoved {
                value: bytes[2],
                fader_type: FaderType::Track(bytes[0] - 0xB0 + button_offset_x),
            }
        } else if number == 0xE {
            match self {
                ControllerInput::APC20 => InputEventType::FaderMoved {
                    value: bytes[2],
                    fader_type: FaderType::Velocity,
                },
                ControllerInput::APC40 => InputEventType::FaderMoved {
                    value: bytes[2],
                    fader_type: FaderType::Master,
                },
            }
        } else if number == 0xF {
            InputEventType::FaderMoved { value: bytes[2], fader_type: FaderType::CrossFade }
        } else if number == 0x2F {
            let value = bytes[2];
            let delta: i8 = if value < 64 {
                value as i8
            } else if value < 192 {
                (value as i16 - 128) as i8
            } else {
                (value as i16 - 255) as i8
            };
            match self {
                ControllerInput::APC20 => InputEventType::DeltaKnobTurned {
                    delta,
                    knob_type: KnobType::Move(0),
                },
                ControllerInput::APC40 => InputEventType::DeltaKnobTurned {
                    delta,
                    knob_type: KnobType::Move(1),
                },
            }
        } else {
            InputEventType::Unknown
        }
    }
}

impl InputEvent {
    pub fn is_crossfader(event_type: &InputEventType) -> (r: bool)
        ensures
            r == (event_type matches InputEventType::FaderMoved {
                fader_type: FaderType::CrossFade,
                ..
            }),
    {
        matches!(event_type, InputEventType::FaderMoved { fader_type: FaderType::CrossFade, .. })
    }

    pub fn is_activator_button(event_type: &InputEventType) -> (r: bool)
        ensures
            r == (event_type matches InputEventType::ButtonPressed(ButtonType::Activator(_))),
    {
        matches!(event_type, InputEventType::ButtonPressed(ButtonType::Activator(_)))
    }

    pub fn is_track_button(event_type: &InputEventType) -> (r: bool)
        ensures
            r == (event_type matches InputEventType::ButtonPressed(ButtonType::Track(_))),
    {
        matches!(event_type, InputEventType::ButtonPressed(ButtonType::Track(_)))
    }

    pub fn is_solo_button(event_type: &InputEventType) -> (r: bool)
        ensures
            r == (event_type matches InputEventType::ButtonPressed(ButtonType::Solo(_))),
    {
        matches!(event_type, InputEventType::ButtonPressed(ButtonType::Solo(_)))
    }

    pub fn is_grid_button(event_type: &InputEventType) -> (r: bool)
        ensures
            r == (event_type matches InputEventType::ButtonPressed(ButtonType::Grid(_, _))),
    {
        matches!(event_type, InputEventType::ButtonPressed(ButtonType::Grid(_, _)))
    }

    pub fn is_right_button(event_type: &InputEventType) -> (r: bool)
        ensures
            r == (event_type matches InputEventType::ButtonPressed(ButtonType::Right)),
    {
        matches!(event_type, InputEventType::ButtonPressed(ButtonType::Right))
    }

    pub fn is_left_button(event_type: &InputEventType) -> (r: bool)
        ensures
            r == (event_type matches InputEventType::ButtonPressed(ButtonType::Left)),
    {
        matches!(event_type, InputEventType::ButtonPressed(ButtonType::Left))
    }
}

} // verus!
