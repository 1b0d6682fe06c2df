pub mod terminal_print;
