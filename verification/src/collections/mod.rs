pub mod pred_succ;
