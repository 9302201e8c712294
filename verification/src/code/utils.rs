pub mod blank_counter;
pub mod char_pos_finder;
pub mod line_break_pos_finder;
pub mod line_map;
pub mod places;
pub mod text;
