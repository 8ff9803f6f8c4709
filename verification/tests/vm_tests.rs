use chip8::vm::{Chip8, Chip8Error, Chip8State};

fn machine_with(rom: &[u8]) -> Chip8 {
    let mut c = Chip8::new();
    c.load(rom.to_vec()).unwrap();
    c
}

fn step(c: &mut Chip8) {
    c.step_with_random(0).unwrap();
}

#[test]
fn register_set_get_round_trips_for_all_indices() {
    let mut c = Chip8::new();
    for idx in 0..16 {
        let val = (idx as u8) * 3 + 1;
        c.set_vx(idx, val).unwrap();
        assert_eq!(c.get_vx(idx), val);
    }
    for idx in 0..16 {
        assert_eq!(c.get_vx(idx), (idx as u8) * 3 + 1);
    }
    assert_eq!(c.set_vx(16, 1), Err(Chip8Error::BoundsError(16)));
    assert_eq!(c.set_vx(100, 1), Err(Chip8Error::BoundsError(100)));
}

#[test]
fn memory_set_get_round_trips_for_all_addresses() {
    let mut c = Chip8::new();
    for addr in 0..4096 {
        let val = (addr % 251) as u8;
        c.set_memory_location(addr, val).unwrap();
        assert_eq!(c.get_memory_location(addr), val);
    }
    assert_eq!(
        c.set_memory_location(4096, 1),
        Err(Chip8Error::BoundsError(4096))
    );
}

#[test]
fn font_is_preloaded_at_address_zero() {
    let c = Chip8::new();
    assert_eq!(c.get_memory_location(0), 0xF0);
    assert_eq!(c.get_memory_location(1), 0x90);
    assert_eq!(c.get_memory_location(4), 0xF0);
    assert_eq!(c.get_memory_location(79), 0x80);
    assert_eq!(c.get_memory_location(80), 0x00);
    assert_eq!(c.get_pc(), 0x200);
}

#[test]
fn load_copies_rom_at_0x200() {
    let c = machine_with(&[0xDE, 0xAD, 0xBE, 0xEF]);
    assert_eq!(c.get_memory_location(0x200), 0xDE);
    assert_eq!(c.get_memory_location(0x201), 0xAD);
    assert_eq!(c.get_memory_location(0x202), 0xBE);
    assert_eq!(c.get_memory_location(0x203), 0xEF);
    assert_eq!(c.get_memory_location(0x204), 0x00);
}

#[test]
fn load_rejects_rom_that_overruns_memory() {
    let mut c = Chip8::new();
    assert!(c.load(vec![1u8; 3584]).is_ok());
    let mut c2 = Chip8::new();
    assert_eq!(
        c2.load(vec![1u8; 3585]),
        Err(Chip8Error::BoundsError(4096))
    );
    // The rejected image changed nothing.
    assert_eq!(c2.get_memory_location(0x200), 0);
}

#[test]
fn jump_sets_pc_exactly() {
    let mut c = machine_with(&[0x12, 0x34]);
    step(&mut c);
    assert_eq!(c.get_pc(), 0x234);
}

#[test]
fn jump_with_offset_adds_v0() {
    let mut c = machine_with(&[0x60, 0x04, 0xB3, 0x00]);
    step(&mut c);
    step(&mut c);
    assert_eq!(c.get_pc(), 0x304);
}

#[test]
fn call_then_return_resumes_after_call() {
    // 0x200: call 0x206; 0x206: return.
    let mut c = machine_with(&[0x22, 0x06, 0x00, 0x00, 0x00, 0x00, 0x00, 0xEE]);
    step(&mut c);
    assert_eq!(c.get_pc(), 0x206);
    assert_eq!(c.get_sp(), 1);
    step(&mut c);
    assert_eq!(c.get_pc(), 0x202);
    assert_eq!(c.get_sp(), 0);
}

#[test]
fn return_with_empty_stack_is_rejected() {
    let mut c = machine_with(&[0x00, 0xEE]);
    assert_eq!(c.step_with_random(0), Err(Chip8Error::BoundsError(0)));
    assert_eq!(c.get_pc(), 0x200);
}

#[test]
fn seventeenth_nested_call_overflows_the_stack() {
    // A chain of calls, each to the following instruction.
    let mut rom = Vec::new();
    for k in 0..17u16 {
        let target = 0x202 + 2 * k;
        rom.push(0x20 | (target >> 8) as u8);
        rom.push((target & 0xFF) as u8);
    }
    let mut c = machine_with(&rom);
    for _ in 0..16 {
        step(&mut c);
    }
    assert_eq!(c.get_sp(), 16);
    assert_eq!(c.step_with_random(0), Err(Chip8Error::BoundsError(16)));
}

#[test]
fn skip_if_equal_advances_by_four_when_it_holds() {
    let mut c = machine_with(&[0x30, 0x00]);
    step(&mut c);
    assert_eq!(c.get_pc(), 0x204);
    let mut c = machine_with(&[0x30, 0x01]);
    step(&mut c);
    assert_eq!(c.get_pc(), 0x202);
}

#[test]
fn skip_if_not_equal_advances_by_four_when_it_holds() {
    let mut c = machine_with(&[0x40, 0x01]);
    step(&mut c);
    assert_eq!(c.get_pc(), 0x204);
    let mut c = machine_with(&[0x40, 0x00]);
    step(&mut c);
    assert_eq!(c.get_pc(), 0x202);
}

#[test]
fn skip_on_register_compare() {
    // V0 = 2, V1 = 2: 5xy0 skips, 9xy0 does not.
    let mut c = machine_with(&[0x60, 0x02, 0x61, 0x02, 0x50, 0x10]);
    step(&mut c);
    step(&mut c);
    step(&mut c);
    assert_eq!(c.get_pc(), 0x208);
    let mut c = machine_with(&[0x60, 0x02, 0x61, 0x03, 0x90, 0x10]);
    step(&mut c);
    step(&mut c);
    step(&mut c);
    assert_eq!(c.get_pc(), 0x208);
}

#[test]
fn load_and_add_immediate() {
    let mut c = machine_with(&[0x60, 0x2A, 0x70, 0x05]);
    step(&mut c);
    assert_eq!(c.get_vx(0), 0x2A);
    step(&mut c);
    assert_eq!(c.get_vx(0), 0x2F);
}

#[test]
fn add_immediate_wraps_without_touching_the_flag() {
    let mut c = machine_with(&[0x60, 0xFF, 0x6F, 0x09, 0x70, 0x02]);
    step(&mut c);
    step(&mut c);
    step(&mut c);
    assert_eq!(c.get_vx(0), 1);
    assert_eq!(c.get_vx(15), 9);
}

#[test]
fn alu_move_and_bit_operations() {
    // V0 = 0b1100, V1 = 0b1010.
    let base = [0x60, 0x0C, 0x61, 0x0A];
    let mut c = machine_with(&[base[0], base[1], base[2], base[3], 0x80, 0x11]);
    step(&mut c);
    step(&mut c);
    step(&mut c);
    assert_eq!(c.get_vx(0), 0x0E);
    let mut c = machine_with(&[base[0], base[1], base[2], base[3], 0x80, 0x12]);
    step(&mut c);
    step(&mut c);
    step(&mut c);
    assert_eq!(c.get_vx(0), 0x08);
    let mut c = machine_with(&[base[0], base[1], base[2], base[3], 0x80, 0x13]);
    step(&mut c);
    step(&mut c);
    step(&mut c);
    assert_eq!(c.get_vx(0), 0x06);
    let mut c = machine_with(&[base[0], base[1], base[2], base[3], 0x80, 0x10]);
    step(&mut c);
    step(&mut c);
    step(&mut c);
    assert_eq!(c.get_vx(0), 0x0A);
}

#[test]
fn add_with_carry_sets_flag_exactly_on_overflow() {
    let mut c = machine_with(&[0x60, 0xC8, 0x61, 0x64, 0x80, 0x14]);
    step(&mut c);
    step(&mut c);
    step(&mut c);
    assert_eq!(c.get_vx(0), 44); // 200 + 100 wraps to 44
    assert_eq!(c.get_vx(15), 1);
    let mut c = machine_with(&[0x60, 0x02, 0x61, 0x03, 0x80, 0x14]);
    step(&mut c);
    step(&mut c);
    step(&mut c);
    assert_eq!(c.get_vx(0), 5);
    assert_eq!(c.get_vx(15), 0);
}

#[test]
fn subtract_sets_no_borrow_flag_from_pre_subtraction_values() {
    let mut c = machine_with(&[0x60, 0x0A, 0x61, 0x05, 0x80, 0x15]);
    step(&mut c);
    step(&mut c);
    step(&mut c);
    assert_eq!(c.get_vx(0), 5);
    assert_eq!(c.get_vx(15), 1);
    let mut c = machine_with(&[0x60, 0x05, 0x61, 0x0A, 0x80, 0x15]);
    step(&mut c);
    step(&mut c);
    step(&mut c);
    assert_eq!(c.get_vx(0), 251); // 5 - 10 wraps
    assert_eq!(c.get_vx(15), 0);
}

#[test]
fn reverse_subtract_wraps_instead_of_trapping() {
    // V0 = 10, V1 = 3: V0 := V1 - V0 underflows and wraps.
    let mut c = machine_with(&[0x60, 0x0A, 0x61, 0x03, 0x80, 0x17]);
    step(&mut c);
    step(&mut c);
    step(&mut c);
    assert_eq!(c.get_vx(0), 249); // 3 - 10 wraps
    assert_eq!(c.get_vx(15), 0);
    let mut c = machine_with(&[0x60, 0x03, 0x61, 0x0A, 0x80, 0x17]);
    step(&mut c);
    step(&mut c);
    step(&mut c);
    assert_eq!(c.get_vx(0), 7);
    assert_eq!(c.get_vx(15), 1);
}

#[test]
fn shifts_expose_the_shifted_out_bit_in_vf() {
    let mut c = machine_with(&[0x60, 0x05, 0x80, 0x06]);
    step(&mut c);
    step(&mut c);
    assert_eq!(c.get_vx(0), 2);
    assert_eq!(c.get_vx(15), 1);
    let mut c = machine_with(&[0x60, 0x81, 0x80, 0x0E]);
    step(&mut c);
    step(&mut c);
    assert_eq!(c.get_vx(0), 2);
    assert_eq!(c.get_vx(15), 1);
    let mut c = machine_with(&[0x60, 0x44, 0x80, 0x0E]);
    step(&mut c);
    step(&mut c);
    assert_eq!(c.get_vx(0), 0x88);
    assert_eq!(c.get_vx(15), 0);
}

#[test]
fn unknown_alu_subcode_is_rejected() {
    let mut c = machine_with(&[0x80, 0x18]);
    assert_eq!(
        c.step_with_random(0),
        Err(Chip8Error::UnknownInstruction(0x8018))
    );
}

#[test]
fn set_index_register() {
    let mut c = machine_with(&[0xA1, 0x23]);
    step(&mut c);
    assert_eq!(c.get_i(), 0x123);
}

#[test]
fn random_byte_is_masked_by_kk() {
    let mut c = machine_with(&[0xC0, 0x00, 0xC1, 0x0F]);
    c.run_once().unwrap();
    assert_eq!(c.get_vx(0), 0);
    c.run_once().unwrap();
    assert!(c.get_vx(1) <= 0x0F);
}

#[test]
fn random_with_explicit_byte_is_deterministic() {
    let mut c = machine_with(&[0xC0, 0x3C]);
    c.step_with_random(0xAB).unwrap();
    assert_eq!(c.get_vx(0), 0xAB & 0x3C);
}

#[test]
fn draw_sets_pixels_and_dirty_flag() {
    // I = 0 (glyph "0", top row 0xF0), draw 5 rows at (0, 0).
    let mut c = machine_with(&[0xA0, 0x00, 0xD0, 0x05]);
    step(&mut c);
    assert!(!c.show);
    step(&mut c);
    assert!(c.show);
    assert!(c.display.get_pixel(0, 0));
    assert!(c.display.get_pixel(3, 0));
    assert!(!c.display.get_pixel(4, 0));
    assert!(c.display.get_pixel(0, 1));
    assert!(!c.display.get_pixel(1, 1));
    assert_eq!(c.get_vx(15), 0);
}

#[test]
fn drawing_the_same_sprite_twice_restores_the_screen() {
    let mut c = machine_with(&[0xA0, 0x00, 0xD0, 0x05, 0xD0, 0x05]);
    step(&mut c);
    step(&mut c);
    step(&mut c);
    for y in 0..32 {
        for x in 0..64 {
            assert!(!c.display.get_pixel(x, y));
        }
    }
    // Every drawn pixel transitioned from set to unset: collision.
    assert_eq!(c.get_vx(15), 1);
}

#[test]
fn collision_flag_is_zero_for_disjoint_draws() {
    // Draw glyph "0" at (0,0) and again at (8,0): no shared pixel.
    let mut c = machine_with(&[0xA0, 0x00, 0x61, 0x08, 0xD0, 0x05, 0xD1, 0x05]);
    step(&mut c);
    step(&mut c);
    step(&mut c);
    assert_eq!(c.get_vx(15), 0);
    step(&mut c);
    assert_eq!(c.get_vx(15), 0);
    assert!(c.display.get_pixel(0, 0));
    assert!(c.display.get_pixel(8, 0));
}

#[test]
fn draw_out_of_memory_is_rejected() {
    let mut c = machine_with(&[0xAF, 0xFF, 0xD0, 0x02]);
    step(&mut c);
    assert_eq!(c.step_with_random(0), Err(Chip8Error::BoundsError(4096)));
}

#[test]
fn clear_display_blanks_every_pixel() {
    let mut c = machine_with(&[0xA0, 0x00, 0xD0, 0x05, 0x00, 0xE0]);
    step(&mut c);
    step(&mut c);
    assert!(c.display.get_pixel(0, 0));
    step(&mut c);
    assert!(c.show);
    for y in 0..32 {
        for x in 0..64 {
            assert!(!c.display.get_pixel(x, y));
        }
    }
}

#[test]
fn group_zero_without_a_match_is_rejected_not_skipped() {
    let mut c = machine_with(&[0x00, 0xFF]);
    assert_eq!(
        c.step_with_random(0),
        Err(Chip8Error::UnknownInstruction(0x00FF))
    );
    assert_eq!(c.get_pc(), 0x200);
}

#[test]
fn unknown_instruction_carries_the_raw_value() {
    let mut c = machine_with(&[0xE0, 0x55]);
    assert_eq!(
        c.step_with_random(0),
        Err(Chip8Error::UnknownInstruction(0xE055))
    );
    let mut c = machine_with(&[0xF0, 0x99]);
    assert_eq!(
        c.step_with_random(0),
        Err(Chip8Error::UnknownInstruction(0xF099))
    );
}

#[test]
fn key_skips_test_the_latched_key() {
    let mut c = machine_with(&[0x60, 0x07, 0xE0, 0x9E]);
    step(&mut c);
    c.key = Some(7);
    step(&mut c);
    assert_eq!(c.get_pc(), 0x206);
    let mut c = machine_with(&[0x60, 0x07, 0xE0, 0x9E]);
    step(&mut c);
    c.key = None;
    step(&mut c);
    assert_eq!(c.get_pc(), 0x204);
    let mut c = machine_with(&[0x60, 0x07, 0xE0, 0xA1]);
    step(&mut c);
    c.key = Some(3);
    step(&mut c);
    assert_eq!(c.get_pc(), 0x206);
}

#[test]
fn timers_load_read_and_tick_once_per_step() {
    // V0 = 3; DT = V0; the same step already ticks DT down to 2.
    let mut c = machine_with(&[0x60, 0x03, 0xF0, 0x15, 0xF1, 0x07]);
    step(&mut c);
    step(&mut c);
    assert_eq!(c.get_dt(), 2);
    step(&mut c);
    // Fx07 reads DT before the tick of its own step.
    assert_eq!(c.get_vx(1), 2);
    assert_eq!(c.get_dt(), 1);
}

#[test]
fn sound_timer_loads_and_saturates_at_zero() {
    let mut c = machine_with(&[0x60, 0x01, 0xF0, 0x18, 0x61, 0x00, 0x61, 0x00]);
    step(&mut c);
    step(&mut c);
    assert_eq!(c.get_st(), 0); // set to 1, ticked once in the same step
    step(&mut c);
    assert_eq!(c.get_st(), 0); // never below zero
}

#[test]
fn add_to_index_register() {
    let mut c = machine_with(&[0xA1, 0x00, 0x60, 0x23, 0xF0, 0x1E]);
    step(&mut c);
    step(&mut c);
    step(&mut c);
    assert_eq!(c.get_i(), 0x123);
}

#[test]
fn font_address_is_five_times_the_digit() {
    let mut c = machine_with(&[0x60, 0x0A, 0xF0, 0x29]);
    step(&mut c);
    step(&mut c);
    assert_eq!(c.get_i(), 50);
}

#[test]
fn bcd_stores_hundreds_tens_ones() {
    let mut c = machine_with(&[0x60, 0xEA, 0xA3, 0x00, 0xF0, 0x33]);
    step(&mut c);
    step(&mut c);
    step(&mut c);
    assert_eq!(c.get_memory_location(0x300), 2);
    assert_eq!(c.get_memory_location(0x301), 3);
    assert_eq!(c.get_memory_location(0x302), 4);
}

#[test]
fn bcd_of_a_small_value_pads_with_zeros() {
    let mut c = machine_with(&[0x60, 0x07, 0xA3, 0x00, 0xF0, 0x33]);
    step(&mut c);
    step(&mut c);
    step(&mut c);
    assert_eq!(c.get_memory_location(0x300), 0);
    assert_eq!(c.get_memory_location(0x301), 0);
    assert_eq!(c.get_memory_location(0x302), 7);
}

#[test]
fn bcd_near_the_end_of_memory_is_rejected() {
    let mut c = machine_with(&[0xAF, 0xFE, 0x60, 0x07, 0xF0, 0x33]);
    step(&mut c);
    step(&mut c);
    assert_eq!(c.step_with_random(0), Err(Chip8Error::BoundsError(4096)));
}

#[test]
fn store_then_load_round_trips_registers() {
    let mut c = machine_with(&[0xA3, 0x00, 0xF3, 0x55, 0xF3, 0x65]);
    for idx in 0..4 {
        c.set_vx(idx, 40 + idx as u8).unwrap();
    }
    step(&mut c); // I = 0x300
    step(&mut c); // store V0..V3
    assert_eq!(c.get_memory_location(0x300), 40);
    assert_eq!(c.get_memory_location(0x301), 41);
    assert_eq!(c.get_memory_location(0x302), 42);
    assert_eq!(c.get_memory_location(0x303), 43);
    // Scramble the registers, then reload them.
    for idx in 0..4 {
        c.set_vx(idx, 0xEE).unwrap();
    }
    step(&mut c);
    for idx in 0..4 {
        assert_eq!(c.get_vx(idx), 40 + idx as u8);
    }
    // V4 and up were never stored nor loaded.
    assert_eq!(c.get_vx(4), 0);
}

#[test]
fn store_past_the_end_of_memory_is_rejected() {
    let mut c = machine_with(&[0xAF, 0xFD, 0xF3, 0x55]);
    step(&mut c);
    assert_eq!(c.step_with_random(0), Err(Chip8Error::BoundsError(4096)));
}

#[test]
fn waiting_for_a_key_freezes_the_machine_until_one_arrives() {
    let mut c = machine_with(&[0x60, 0x09, 0xF5, 0x0A, 0x61, 0x30]);
    step(&mut c);
    step(&mut c);
    assert_eq!(c.get_state(), Chip8State::WaitingForKey(5));
    assert_eq!(c.get_pc(), 0x204);
    let dt_before = c.get_dt();
    // No key: stepping changes nothing.
    c.key = None;
    step(&mut c);
    step(&mut c);
    assert_eq!(c.get_state(), Chip8State::WaitingForKey(5));
    assert_eq!(c.get_pc(), 0x204);
    assert_eq!(c.get_vx(0), 9);
    assert_eq!(c.get_vx(5), 0);
    assert_eq!(c.get_dt(), dt_before);
    // A latched key lands in the target register and resumes the machine.
    c.key = Some(0xC);
    step(&mut c);
    assert_eq!(c.get_state(), Chip8State::Running);
    assert_eq!(c.get_vx(5), 0xC);
    assert_eq!(c.get_pc(), 0x204);
    // The next step executes normally again.
    c.key = None;
    step(&mut c);
    assert_eq!(c.get_vx(1), 0x30);
    assert_eq!(c.get_pc(), 0x206);
}

#[test]
fn wait_for_key_rejects_an_out_of_range_register() {
    let mut c = Chip8::new();
    c.key = Some(1);
    assert_eq!(c.wait_for_key(16), Err(Chip8Error::BoundsError(16)));
    c.key = None;
    assert!(c.wait_for_key(16).is_ok());
}

#[test]
fn dirty_flag_clears_on_steps_that_do_not_draw() {
    let mut c = machine_with(&[0xA0, 0x00, 0xD0, 0x01, 0x60, 0x01]);
    step(&mut c);
    step(&mut c);
    assert!(c.show);
    step(&mut c);
    assert!(!c.show);
}

#[test]
fn fetch_past_the_end_of_memory_is_rejected() {
    let mut c = machine_with(&[0x1F, 0xFF]); // jump to 0xFFF
    step(&mut c);
    assert_eq!(c.get_pc(), 0xFFF);
    assert_eq!(c.step_with_random(0), Err(Chip8Error::BoundsError(4096)));
}

#[test]
fn load_of_an_empty_rom_changes_nothing() {
    let mut c = Chip8::new();
    assert!(c.load(Vec::new()).is_ok());
    assert_eq!(c.get_memory_location(0x200), 0);
    assert_eq!(c.get_pc(), 0x200);
}

#[test]
fn draw_of_zero_rows_clears_the_flag_and_raises_dirty() {
    let mut c = machine_with(&[0x6F, 0x05, 0xD0, 0x00]);
    step(&mut c);
    assert_eq!(c.get_vx(15), 5);
    step(&mut c);
    assert!(c.show);
    assert_eq!(c.get_vx(15), 0);
    for y in 0..32 {
        for x in 0..64 {
            assert!(!c.display.get_pixel(x, y));
        }
    }
}
