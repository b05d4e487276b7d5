pub mod res_manager;
