pub mod task_type;
pub mod sorted_task;
pub mod task_signature;
